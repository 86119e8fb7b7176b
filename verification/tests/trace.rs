use airbender::simulator::abstractions::{QuasiWordSource, TraceEvent, Tracer};
use airbender::simulator::config::IMStandardIsaConfig;
use airbender::simulator::delegations::NoExtraCSRs;
use airbender::simulator::isa::CycleFault;
use airbender::simulator::state::RiscV32StateForUnrolledProver;
use airbender::trace::chunks::{
    num_chunks_for, ChunkTracer, ExecutionFault, INITIAL_TIMESTAMP,
};
use airbender::trace::commitment::{
    commit_memory_tree_for_delegation_circuit_with_gpu_tracer,
    commit_memory_tree_for_riscv_circuit_using_gpu_tracer,
};
use airbender::trace::execution::{
    load_program, try_run_and_split, try_run_till_end, Execution,
};
use airbender::trace::logs::{file_batch, file_open};
use airbender::trace::records::{
    collect_touched_words, final_register_values, split_touched_words, FinalRegisterValue,
};
use airbender::trace::split::{split_execution, SplitExecution, TracerRecords};
use airbender::trace::transcript::{
    flatten_merkle_caps, fs_transform_for_memory_and_delegation_arguments, split_timestamp,
    MerkleTreeCapVarLength,
};
use std::collections::HashMap;

const SELF_LOOP: u32 = 0x6f;

fn addi(rd: u32, rs1: u32, imm: u32) -> u32 {
    (imm & 0xfff) << 20 | rs1 << 15 | rd << 7 | 0x13
}

fn run(program: &[u32], bound: usize, trace_size: usize) -> Result<Execution, ExecutionFault> {
    let mut oracle = QuasiWordSource::new(vec![]);
    try_run_till_end::<QuasiWordSource, IMStandardIsaConfig, (), NoExtraCSRs, 1>(
        bound,
        trace_size,
        1 << 18,
        program,
        &mut oracle,
        &mut (),
        &mut NoExtraCSRs,
    )
}

#[test]
fn execution_ends_in_the_first_possible_chunk() {
    let program = [addi(1, 0, 1), addi(1, 1, 1), addi(1, 1, 1), addi(1, 1, 1), SELF_LOOP];
    let execution = run(&program, 100, 4).unwrap();
    assert_eq!(execution.circuits_needed, 2);
    assert_eq!(execution.final_pc, 16);
    assert_eq!(execution.registers[1], 4);
    assert_eq!(execution.ram.len(), 1 << 16);
    assert_eq!(execution.ram[0], 0);
    let execution = run(&program, 5, 8).unwrap();
    assert_eq!(execution.circuits_needed, 1);
}

/// Keeps the program counter at the start of every cycle, and the timestamps of the chunks.
#[derive(Default)]
struct Recorder {
    starts: Vec<u32>,
    timestamps: Vec<(usize, u64)>,
}

impl Tracer<IMStandardIsaConfig> for Recorder {
    type Model = ();

    fn model(&self) {}

    fn observe(_model: (), _event: TraceEvent) {}

    fn at_cycle_start_ext(&mut self, state: &RiscV32StateForUnrolledProver<IMStandardIsaConfig>) {
        self.starts.push(state.observable.pc);
    }

    fn at_cycle_end_ext(&mut self, _state: &RiscV32StateForUnrolledProver<IMStandardIsaConfig>) {}

    fn trace_rs1_read(&mut self, _reg_idx: u32, _read_value: u32) {}

    fn trace_rs2_read(&mut self, _reg_idx: u32, _read_value: u32) {}

    fn trace_rd_write(&mut self, _reg_idx: u32, _read_value: u32, _written_value: u32) {}

    fn trace_non_determinism_read(&mut self, _read_value: u32) {}

    fn trace_non_determinism_write(&mut self, _written_value: u32) {}

    fn trace_ram_read(&mut self, _phys_address: u64, _read_value: u32) {}

    fn trace_ram_read_write(&mut self, _phys_address: u64, _old_value: u32, _new_value: u32) {}
}

impl ChunkTracer<IMStandardIsaConfig> for Recorder {
    fn next_chunk(_model: (), _timestamp: u64) {}

    fn prepare_for_next_chunk(&mut self, timestamp: u64) {
        self.timestamps.push((self.starts.len(), timestamp));
    }
}

#[test]
fn chunks_open_with_their_first_timestamps() {
    let program = [addi(1, 0, 1), addi(1, 1, 1), addi(1, 1, 1), addi(1, 1, 1), SELF_LOOP];
    let mut tracer = Recorder::default();
    let execution =
        try_run_till_end::<QuasiWordSource, IMStandardIsaConfig, Recorder, NoExtraCSRs, 1>(
            100,
            2,
            1 << 18,
            &program,
            &mut QuasiWordSource::new(vec![]),
            &mut tracer,
            &mut NoExtraCSRs,
        )
        .unwrap();
    assert_eq!(execution.circuits_needed, 5);
    assert_eq!(INITIAL_TIMESTAMP, 4);
    // Before the second cycle and before those that follow it.
    assert_eq!(tracer.timestamps, vec![(1, 6), (2, 8), (3, 10), (4, 12)]);
}

#[test]
fn chunk_length_does_not_matter() {
    let program = [addi(2, 2, 5), addi(3, 2, 7), SELF_LOOP];
    let a = run(&program, 50, 2).unwrap();
    let b = run(&program, 50, 16).unwrap();
    assert_eq!(a.registers, b.registers);
    assert_eq!(a.final_pc, b.final_pc);
    assert_eq!(a.ram, b.ram);
    assert_eq!(a.circuits_needed, 3);
    assert_eq!(b.circuits_needed, 1);
}

#[test]
fn execution_without_end() {
    let program = [addi(1, 1, 1), addi(1, 1, 1), addi(1, 1, 1), SELF_LOOP];
    assert!(matches!(run(&program, 3, 4), Err(ExecutionFault::EndNeverReached)));
    assert!(matches!(run(&program, 0, 4), Err(ExecutionFault::EndNeverReached)));
}

#[test]
fn execution_with_fault() {
    let program = [addi(1, 1, 1), addi(1, 1, 1), addi(1, 1, 1), addi(1, 1, 1), 0];
    match run(&program, 100, 4) {
        Err(ExecutionFault::Fault { chunk, cycles, fault }) => {
            assert_eq!((chunk, cycles), (1, 1));
            assert_eq!(fault, CycleFault::UnknownOpcode { opcode: 0 });
        }
        _ => panic!("a fault was expected"),
    }
}

#[test]
fn chunks_are_just_enough() {
    assert_eq!(num_chunks_for(0, 7), 0);
    assert_eq!(num_chunks_for(1, 7), 1);
    assert_eq!(num_chunks_for(7, 7), 1);
    assert_eq!(num_chunks_for(8, 7), 2);
    assert_eq!(num_chunks_for(usize::MAX, 1), usize::MAX);
}

#[test]
fn program_is_loaded_at_the_entry_point() {
    let memory = load_program(64, 16, &[1, 2, 3]);
    assert_eq!(memory.num_words(), 16);
    let ram = memory.get_final_ram_state();
    assert_eq!(ram[4], 0);
    let ram = load_program(64, 0, &[1, 2, 3]).get_final_ram_state();
    assert_eq!(&ram[..4], &[1, 2, 3, 0]);
}

#[test]
fn touched_words_ascend() {
    let mask = [1u64 << 63 | 1, 0b101];
    let ram: Vec<u32> = (0..128).map(|i| 1000 + i).collect();
    let timestamps: Vec<u64> = (0..128).map(|i| 2 * i).collect();
    let words = collect_touched_words(&mask, &ram, &timestamps, 0, 2);
    assert_eq!(
        words,
        vec![
            (0, (0, 1000)),
            (252, (126, 1063)),
            (256, (128, 1064)),
            (264, (132, 1066)),
        ]
    );
    let parts = split_touched_words(&mask, &ram, &timestamps, &[1, 0, 1]);
    assert_eq!(parts.len(), 3);
    assert!(parts[1].is_empty());
    assert_eq!(parts.concat(), words);
}

#[test]
fn delegation_batches_are_filed_by_type() {
    let mut logs: HashMap<u16, Vec<Vec<u8>>> = HashMap::new();
    file_batch(&mut logs, 1991, vec![1]);
    let open = HashMap::from([(1994, vec![7]), (1991, vec![2, 3]), (5, vec![])]);
    file_open(&mut logs, open);
    let expected = HashMap::from([(1991, vec![vec![1], vec![2, 3]]), (1994, vec![vec![7]])]);
    assert_eq!(logs, expected);
}

#[test]
fn registers_keep_their_timestamps() {
    let mut registers = [0u32; 32];
    let mut timestamps = [0u64; 32];
    registers[3] = 9;
    timestamps[3] = 77;
    let values = final_register_values(&registers, &timestamps);
    assert_eq!(values.len(), 32);
    assert_eq!(values[3], FinalRegisterValue { value: 9, last_access_timestamp: 77 });
    assert_eq!(values[4], FinalRegisterValue { value: 0, last_access_timestamp: 0 });
}

#[test]
fn execution_is_split() {
    let mut registers = [0u32; 32];
    registers[1] = 5;
    let execution = Execution { final_pc: 8, circuits_needed: 2, registers, ram: vec![3; 64] };
    let records = TracerRecords {
        traced_chunks: vec!['a'],
        trace_chunk: 'b',
        register_last_live_timestamps: [4; 32],
        ram_words_last_live_timestamps: vec![6; 64],
        access_bitmask: vec![2],
        all_per_type_logs: HashMap::new(),
        current_per_type_logs: HashMap::from([(1991u16, vec![1u8])]),
    };
    let parts = split_execution(execution, records, &[1]);
    assert_eq!(parts.final_pc, 8);
    assert_eq!(parts.main_circuit_traces, vec!['a', 'b']);
    assert_eq!(parts.delegation_traces, HashMap::from([(1991, vec![vec![1]])]));
    assert_eq!(parts.register_final_values[1].value, 5);
    assert_eq!(parts.lazy_init_teardown_data, vec![vec![(4, (6, 3))]]);
}

/// Runs a program whose tracer keeps nothing but the number of chunks, which is known beforehand.
fn run_and_split(
    program: &[u32],
    bound: usize,
    chunks: usize,
) -> Result<SplitExecution<usize, u8>, ExecutionFault> {
    let mut oracle = QuasiWordSource::new(vec![]);
    try_run_and_split::<QuasiWordSource, IMStandardIsaConfig, (), NoExtraCSRs, usize, u8, _, 1>(
        bound,
        4,
        1 << 18,
        program,
        &mut oracle,
        (),
        &mut NoExtraCSRs,
        &[1, 1023],
        |_| {
            let mut access_bitmask = vec![0u64; 1024];
            access_bitmask[0] = 1 << 3;
            access_bitmask[598] = 1 << 2;
            TracerRecords {
                traced_chunks: (1..chunks).collect(),
                trace_chunk: chunks,
                register_last_live_timestamps: [9; 32],
                ram_words_last_live_timestamps: vec![7; 1 << 16],
                access_bitmask,
                all_per_type_logs: HashMap::new(),
                current_per_type_logs: HashMap::new(),
            }
        },
    )
}

#[test]
fn run_is_split() {
    // lui x2, 0x25; addi x1, x0, 5; sw x1, 0x608(x2)
    let store = 0x6011_2423;
    let program = [0x0002_5137, addi(1, 0, 5), store, addi(3, 1, 1), SELF_LOOP];
    let parts = run_and_split(&program, 100, 2).unwrap();
    assert_eq!(parts.final_pc, 16);
    assert_eq!(parts.main_circuit_traces, vec![1, 2]);
    assert!(parts.delegation_traces.is_empty());
    assert_eq!(
        parts.register_final_values[3],
        FinalRegisterValue { value: 6, last_access_timestamp: 9 }
    );
    // Words of the program are blank in the end, and the stored one is not.
    assert_eq!(parts.lazy_init_teardown_data[0], vec![(12, (7, 0))]);
    assert_eq!(parts.lazy_init_teardown_data[1], vec![(0x2_5608, (7, 5))]);
}

#[test]
fn run_without_an_end_is_not_split() {
    let program = [addi(1, 1, 1), 0xffdf_f06f];
    assert_eq!(run_and_split(&program, 10, 2).err(), Some(ExecutionFault::EndNeverReached));
}

fn cap(first: u32, digests: usize) -> MerkleTreeCapVarLength {
    let cap = (0..digests as u32)
        .map(|d| {
            let mut digest = [0u32; 8];
            for (i, word) in digest.iter_mut().enumerate() {
                *word = first + 8 * d + i as u32;
            }
            digest
        })
        .collect();
    MerkleTreeCapVarLength { cap }
}

#[test]
fn caps_are_flattened_in_order() {
    let words = flatten_merkle_caps(&[cap(0, 2), cap(16, 1)]);
    assert_eq!(words, (0..24).collect::<Vec<u32>>());
}

#[test]
fn timestamps_are_split() {
    assert_eq!(split_timestamp(5 * (1 << 19) + 3, 19), (3, 5));
    assert_eq!(split_timestamp(0, 19), (0, 0));
    let (low, high) = split_timestamp(0x1234_5678_9abc, 32);
    assert_eq!((high as u64) << 32 | low as u64, 0x1234_5678_9abc);
}

#[test]
fn transcript_has_whole_blocks() {
    let registers = vec![FinalRegisterValue { value: 1, last_access_timestamp: 1 << 19 | 2 }; 32];
    let setup = [cap(100, 2)];
    let circuits = [vec![cap(200, 2)]];
    let delegations = [
        (1991u32, vec![vec![cap(300, 2)]]),
        (1993u32, vec![]),
        (1994u32, vec![vec![cap(400, 2)], vec![cap(500, 2)]]),
    ];
    let words = fs_transform_for_memory_and_delegation_arguments(
        &setup,
        &registers,
        &circuits,
        &delegations,
        19,
    );
    assert_eq!(words.len(), 96 + 16 + 16 + 32 + 48);
    assert_eq!(&words[..6], &[1, 2, 1, 1, 2, 1]);
    assert_eq!(words[96], 100);
    assert_eq!(words[112], 200);
    assert_eq!(words[128], 1991);
    assert!(words[129..144].iter().all(|w| *w == 0));
    assert_eq!(words[144], 300);
    assert_eq!(words[160], 1994);
    assert_eq!(words[176], 400);
    assert_eq!(words[192], 500);
}

#[test]
fn commitments_share_the_roots() {
    let caps_log2 = [0u32, 1, 2, 3, 5];
    let commit = |sequence: usize| {
        commit_memory_tree_for_riscv_circuit_using_gpu_tracer(
            15,
            sequence,
            &caps_log2,
            2,
            |cycles: usize, cosets: usize| ((0..cosets).collect::<Vec<usize>>(), cycles),
            |coset: &usize, cap_size: usize| (*coset, cap_size),
        )
    };
    // A tree over each coset, in their order; the five bits of roots are shared by two trees.
    assert_eq!(commit(0), (vec![(0, 16), (1, 16)], 15));
    assert_eq!(commit(3), commit(0));
    let (roots, kind) = commit_memory_tree_for_delegation_circuit_with_gpu_tracer(
        7,
        1991,
        &caps_log2,
        4,
        |requests: usize, cosets: usize| (0..cosets).map(|i| 10 * requests + i).collect(),
        |coset: &usize, cap_size: usize| (*coset, cap_size),
    );
    assert_eq!(roots, vec![(70, 2), (71, 2), (72, 2), (73, 2)]);
    assert_eq!(kind, 1991);
}
