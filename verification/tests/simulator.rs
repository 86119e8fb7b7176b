use airbender::simulator::abstractions::{MemorySource, QuasiWordSource, TraceEvent, Tracer};
use airbender::simulator::config::IMStandardIsaConfig;
use airbender::simulator::delegations::{DelegationsCSRProcessor, NoExtraCSRs};
use airbender::simulator::isa::CycleFault;
use airbender::simulator::machine::{Riscv32MachineProverUnrolled, SimulatorConfig};
use airbender::simulator::memory::VectorMemoryImplWithRom;
use airbender::simulator::state::RiscV32StateForUnrolledProver;

type State = RiscV32StateForUnrolledProver<IMStandardIsaConfig>;

const SELF_LOOP: u32 = 0x6f;

fn itype(opcode: u32, funct3: u32, rd: u32, rs1: u32, imm: u32) -> u32 {
    (imm & 0xfff) << 20 | rs1 << 15 | funct3 << 12 | rd << 7 | opcode
}

fn rtype(funct7: u32, funct3: u32, rd: u32, rs1: u32, rs2: u32) -> u32 {
    funct7 << 25 | rs2 << 20 | rs1 << 15 | funct3 << 12 | rd << 7 | 0x33
}

fn stype(funct3: u32, rs1: u32, rs2: u32, imm: u32) -> u32 {
    (imm >> 5 & 0x7f) << 25 | rs2 << 20 | rs1 << 15 | funct3 << 12 | (imm & 0x1f) << 7 | 0x23
}

fn addi(rd: u32, rs1: u32, imm: u32) -> u32 {
    itype(0x13, 0, rd, rs1, imm)
}

fn memory(program: &[u32]) -> VectorMemoryImplWithRom {
    let mut memory = VectorMemoryImplWithRom::new_for_byte_size(1 << 12, 1 << 10);
    for (i, word) in program.iter().enumerate() {
        memory.populate(4 * i as u32, *word);
    }
    memory
}

fn run(program: &[u32], cycles: usize, input: Vec<u32>) -> (State, Result<bool, (usize, CycleFault)>) {
    let mut memory = memory(program);
    let mut state = State::initial(0);
    let mut oracle = QuasiWordSource::new(input);
    let outcome =
        state.try_run_cycles(&mut memory, &mut (), &mut oracle, &mut NoExtraCSRs, cycles);
    (state, outcome)
}

#[test]
fn addition_and_end() {
    let program = [addi(10, 0, 5), addi(11, 0, 7), rtype(0, 0, 12, 10, 11), SELF_LOOP];
    let (state, outcome) = run(&program, 4, vec![]);
    assert_eq!(outcome, Ok(true));
    assert_eq!(state.get_register(12), 12);
    assert_eq!(state.observable.pc, 12);
    let (_, outcome) = run(&program, 3, vec![]);
    assert_eq!(outcome, Ok(false));
}

#[test]
fn self_loop_is_final() {
    let program = [addi(1, 0, 1), SELF_LOOP];
    let (first, _) = run(&program, 2, vec![]);
    let (second, _) = run(&program, 100, vec![]);
    assert_eq!(first.observable.registers, second.observable.registers);
    assert_eq!(first.observable.pc, second.observable.pc);
}

#[test]
fn runs_compose() {
    let program = [addi(1, 1, 1), addi(2, 2, 3), addi(1, 1, 1), SELF_LOOP];
    let mut memory = memory(&program);
    let mut state = State::initial(0);
    let mut oracle = QuasiWordSource::new(vec![]);
    for _ in 0..3 {
        let _ = state.try_run_cycles(&mut memory, &mut (), &mut oracle, &mut NoExtraCSRs, 1);
    }
    let (whole, _) = run(&program, 3, vec![]);
    assert_eq!(state.observable.registers, whole.observable.registers);
    assert_eq!(state.observable.pc, 12);
}

#[test]
fn register_zero_stays_zero() {
    let program = [addi(0, 0, 5), rtype(0, 0, 1, 0, 0), SELF_LOOP];
    let (state, _) = run(&program, 3, vec![]);
    assert_eq!(state.get_register(0), 0);
    assert_eq!(state.get_register(1), 0);
}

#[test]
fn set_register_gives_the_old_value() {
    let mut state = State::initial(0);
    assert_eq!(state.set_register(5, 17), 0);
    assert_eq!(state.set_register(5, 18), 17);
    assert_eq!(state.get_register(5), 18);
}

#[test]
fn addition_overwrites_its_destination() {
    let mut memory = memory(&[rtype(0, 0, 3, 1, 2)]);
    let mut state = State::initial(0);
    state.set_register(1, 7);
    state.set_register(2, 5);
    state.set_register(3, 100);
    let mut oracle = QuasiWordSource::new(vec![]);
    let outcome = state.try_cycle(&mut memory, &mut (), &mut oracle, &mut NoExtraCSRs);
    assert_eq!(outcome, Ok(false));
    assert_eq!(state.get_register(3), 12);
    assert_eq!(state.observable.pc, 4);
}

#[test]
fn load_reads_what_was_stored() {
    // x5 = 0x400, then bytes, halves and words.
    let program = [
        addi(5, 0, 0x400),
        addi(6, 0, 0xffb),
        stype(2, 5, 6, 0),
        itype(0x03, 2, 7, 5, 0),
        stype(0, 5, 6, 5),
        itype(0x03, 4, 8, 5, 5),
        itype(0x03, 0, 9, 5, 5),
        itype(0x03, 5, 10, 5, 0),
        itype(0x03, 1, 11, 5, 2),
        SELF_LOOP,
    ];
    let (state, outcome) = run(&program, 10, vec![]);
    assert_eq!(outcome, Ok(true));
    assert_eq!(state.get_register(7), 0xffff_fffb);
    assert_eq!(state.get_register(8), 0xfb);
    assert_eq!(state.get_register(9), 0xffff_fffb);
    assert_eq!(state.get_register(10), 0xfffb);
    assert_eq!(state.get_register(11), 0xffff_ffff);
}

#[test]
fn program_memory_cannot_be_written() {
    let program = [stype(2, 0, 0, 0), SELF_LOOP];
    let (_, outcome) = run(&program, 2, vec![]);
    assert_eq!(outcome, Err((0, CycleFault::MemoryAccess { address: 0 })));
}

#[test]
fn division() {
    let program = [
        addi(1, 0, 0xff9),
        addi(2, 0, 2),
        rtype(1, 4, 3, 1, 2),
        rtype(1, 6, 4, 1, 2),
        rtype(1, 5, 5, 1, 2),
        rtype(1, 7, 6, 1, 2),
        rtype(1, 4, 7, 1, 0),
        rtype(1, 6, 8, 1, 0),
        SELF_LOOP,
    ];
    let (state, outcome) = run(&program, 9, vec![]);
    assert_eq!(outcome, Ok(true));
    assert_eq!(state.get_register(3) as i32, -3);
    assert_eq!(state.get_register(4) as i32, -1);
    assert_eq!(state.get_register(5), 0xffff_fff9 / 2);
    assert_eq!(state.get_register(6), 1);
    assert_eq!(state.get_register(7), u32::MAX);
    assert_eq!(state.get_register(8) as i32, -7);
}

#[test]
fn remainder_has_the_sign_of_the_dividend() {
    let mut memory = memory(&[0x0220_e1b3]);
    let mut state = State::initial(0);
    state.set_register(1, 0xffff_fff9);
    state.set_register(2, 2);
    let mut oracle = QuasiWordSource::new(vec![]);
    let outcome = state.try_cycle(&mut memory, &mut (), &mut oracle, &mut NoExtraCSRs);
    assert_eq!(outcome, Ok(false));
    assert_eq!(state.get_register(3), 0xffff_ffff);
    assert_eq!(state.observable.pc, 4);
}

#[test]
fn least_number_by_minus_one() {
    // lui x1, 0x80000; addi x2, x0, -1
    let program = [
        0x8000_00b7,
        addi(2, 0, 0xfff),
        rtype(1, 4, 3, 1, 2),
        rtype(1, 6, 4, 1, 2),
        SELF_LOOP,
    ];
    let (state, outcome) = run(&program, 5, vec![]);
    assert_eq!(outcome, Ok(true));
    assert_eq!(state.get_register(3), 0x8000_0000);
    assert_eq!(state.get_register(4), 0);
}

#[test]
fn product_halves() {
    let program = [
        addi(1, 0, 0xffe),
        addi(2, 0, 3),
        rtype(1, 0, 3, 1, 2),
        rtype(1, 1, 4, 1, 2),
        rtype(1, 3, 5, 1, 2),
        rtype(1, 2, 6, 1, 2),
        SELF_LOOP,
    ];
    let (state, _) = run(&program, 7, vec![]);
    assert_eq!(state.get_register(3) as i32, -6);
    assert_eq!(state.get_register(4), u32::MAX);
    let product = 0xffff_fffeu64 * 3;
    assert_eq!(state.get_register(5), (product >> 32) as u32);
    assert_eq!(state.get_register(6), u32::MAX);
}

#[test]
fn branches_and_jumps() {
    // beq x0, x0, +8 skips one instruction; jal x1, +8 another.
    let beq = 0x0000_0463;
    let jal = 0x0080_00ef;
    let program = [beq, addi(10, 0, 1), jal, addi(11, 0, 1), SELF_LOOP];
    let (state, outcome) = run(&program, 3, vec![]);
    assert_eq!(outcome, Ok(true));
    assert_eq!(state.get_register(10), 0);
    assert_eq!(state.get_register(11), 0);
    assert_eq!(state.get_register(1), 12);
}

#[test]
fn unaligned_jump_faults() {
    let jalr = itype(0x67, 0, 0, 0, 2);
    let (_, outcome) = run(&[jalr], 1, vec![]);
    assert_eq!(outcome, Err((0, CycleFault::UnalignedJump { address: 2 })));
}

#[test]
fn unknown_instruction_faults() {
    let (state, outcome) = run(&[addi(1, 0, 1), 0], 2, vec![]);
    assert_eq!(outcome, Err((1, CycleFault::UnknownOpcode { opcode: 0 })));
    assert_eq!(state.get_register(1), 1);
    assert_eq!(state.observable.pc, 4);
}

#[test]
fn fetch_outside_of_memory_faults() {
    let mut memory = memory(&[]);
    let mut state = State::initial(1 << 13);
    let mut oracle = QuasiWordSource::new(vec![]);
    let outcome = state.try_cycle(&mut memory, &mut (), &mut oracle, &mut NoExtraCSRs);
    assert_eq!(outcome, Err(CycleFault::Fetch { pc: 1 << 13 }));
}

#[test]
fn oracle_is_read_through_its_csr() {
    let read = itype(0x73, 1, 10, 0, 0x7c0);
    let (state, outcome) = run(&[read, SELF_LOOP], 2, vec![77]);
    assert_eq!(outcome, Ok(true));
    assert_eq!(state.get_register(10), 77);
    let (_, outcome) = run(&[read, SELF_LOOP], 2, vec![]);
    assert_eq!(outcome, Err((0, CycleFault::OracleRead)));
}

#[test]
fn delegations_need_permission_and_a_processor() {
    let request = itype(0x73, 1, 0, 5, 1991);
    let (_, outcome) = run(&[request], 1, vec![]);
    assert_eq!(outcome, Err((0, CycleFault::DelegationRefused { csr: 1991 })));
    let unknown = itype(0x73, 1, 0, 5, 1992);
    let (_, outcome) = run(&[unknown], 1, vec![]);
    assert_eq!(outcome, Err((0, CycleFault::DelegationNotAllowed { csr: 1992 })));
}

#[test]
fn delegations_are_told_apart() {
    let mut processor = DelegationsCSRProcessor {
        blake2_round_function: NoExtraCSRs,
        u256_ops: NoExtraCSRs,
    };
    let request = itype(0x73, 1, 0, 5, 1994);
    let mut memory = memory(&[request]);
    let mut state = State::initial(0);
    let mut oracle = QuasiWordSource::new(vec![]);
    let outcome = state.try_cycle(&mut memory, &mut (), &mut oracle, &mut processor);
    assert_eq!(outcome, Err(CycleFault::DelegationRefused { csr: 1994 }));
}

#[derive(Default)]
struct Recorder {
    starts: Vec<u32>,
    ends: Vec<u32>,
    rs1: Vec<(u32, u32)>,
    rs2: Vec<(u32, u32)>,
    rd: Vec<(u32, u32, u32)>,
    ram: Vec<(u64, u32, u32)>,
}

impl Tracer<IMStandardIsaConfig> for Recorder {
    type Model = ();

    fn model(&self) {}

    fn observe(_model: (), _event: TraceEvent) {}

    fn at_cycle_start_ext(&mut self, state: &State) {
        self.starts.push(state.observable.pc);
    }

    fn at_cycle_end_ext(&mut self, state: &State) {
        self.ends.push(state.observable.pc);
    }

    fn trace_rs1_read(&mut self, reg_idx: u32, read_value: u32) {
        self.rs1.push((reg_idx, read_value));
    }

    fn trace_rs2_read(&mut self, reg_idx: u32, read_value: u32) {
        self.rs2.push((reg_idx, read_value));
    }

    fn trace_rd_write(&mut self, reg_idx: u32, read_value: u32, written_value: u32) {
        self.rd.push((reg_idx, read_value, written_value));
    }

    fn trace_non_determinism_read(&mut self, _read_value: u32) {}

    fn trace_non_determinism_write(&mut self, _written_value: u32) {}

    fn trace_ram_read(&mut self, phys_address: u64, read_value: u32) {
        self.ram.push((phys_address, read_value, read_value));
    }

    fn trace_ram_read_write(&mut self, phys_address: u64, read_value: u32, written_value: u32) {
        self.ram.push((phys_address, read_value, written_value));
    }
}

#[test]
fn trace_brackets_the_cycle() {
    let mut memory = memory(&[addi(5, 0, 0x400), stype(2, 5, 5, 0), SELF_LOOP]);
    let mut state = State::initial(0);
    let mut oracle = QuasiWordSource::new(vec![]);
    let mut tracer = Recorder::default();
    let outcome =
        state.try_run_cycles(&mut memory, &mut tracer, &mut oracle, &mut NoExtraCSRs, 3);
    assert_eq!(outcome, Ok(true));
    assert_eq!(tracer.starts, vec![0, 4, 8]);
    assert_eq!(tracer.ends, vec![4, 8, 8]);
    assert_eq!(tracer.rs1.len(), 3);
    assert_eq!(tracer.rs1[1], (5, 0x400));
    assert_eq!(tracer.rd[0], (5, 0, 0x400));
    assert_eq!(tracer.ram, vec![(0x400, 0, 0x400)]);
}

#[test]
fn machine_runs_cycle_by_cycle() {
    let config = SimulatorConfig { entry_point: 0 };
    let mut machine: Riscv32MachineProverUnrolled<_, _, _, _, IMStandardIsaConfig> =
        Riscv32MachineProverUnrolled::new(
            &config,
            memory(&[addi(3, 0, 9), SELF_LOOP]),
            (),
            QuasiWordSource::new(vec![]),
            NoExtraCSRs,
        );
    machine.cycle();
    assert_eq!(machine.state().pc, 4);
    assert_eq!(machine.state().registers[3], 9);
    machine.cycle();
    assert_eq!(machine.state().pc, 4);
}

#[test]
fn final_ram_hides_the_program() {
    let mut memory = memory(&[addi(1, 0, 1)]);
    memory.set(0x400, 5);
    assert_eq!(memory.get(0x400), 5);
    assert!(!memory.can_write(0));
    assert!(memory.can_read(0));
    assert!(!memory.can_read(1));
    let ram = memory.get_final_ram_state();
    assert_eq!(ram[0], 0);
    assert_eq!(ram[0x100], 5);
}
