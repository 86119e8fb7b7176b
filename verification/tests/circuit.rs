use airbender::circuit::assembly::{
    cut_instruction, BasicAssembly, Placeholder, Statement, TableType, WitnessRule,
};
use airbender::circuit::decoder::{DecoderInput, OptimizedDecoder};
use airbender::circuit::expression::{Boolean, Constraint, Register, Variable};
use airbender::circuit::flags::{
    DecoderMajorInstructionFamilyKey, DecoderOutputExtraKeysHolder, InstructionType,
};
use airbender::circuit::machine::{
    compile_machine, dump_wintess_graph, FullIsaMachineWithDelegationNoExceptionHandling,
};
use airbender::circuit::ops::{AddOp, CommonDiffs, DecodableMachineOp, NextPcValue, SubOp};
use airbender::circuit::row::MinimalStateRegistersInMemory;
use airbender::circuit::selection::choose_from_orthogonal_variants;
use airbender::circuit::state_transition::{ShuffleRamMemQuery, ShuffleRamQueryType};
use airbender::circuit::transition::{families_in_order, StateTransition};
use airbender::tables::csr::create_csr_table_for_delegation;
use airbender::tables::driver::create_table_driver;
use airbender::tables::lookup::{LookupTable, TableContent};
use airbender::tables::rom::create_table_for_rom_image;
use std::collections::BTreeMap;

const P: u64 = 0x7fff_ffff;

/// The values that come from outside of a row.
struct Outside {
    pc: u32,
    instruction: u32,
    read_values: [u32; 3],
    /// The addresses of the three accesses; that of the first one is part of the instruction.
    addresses: [u32; 3],
    /// What the third access writes.
    written: u32,
    /// The flags of the opcode table: invalid, the six formats, the families.
    flags: Vec<bool>,
}

struct Witness {
    values: BTreeMap<usize, u64>,
}

impl Witness {
    fn get(&self, v: Variable) -> Option<u64> {
        self.values.get(&v.0).copied()
    }

    fn set(&mut self, v: Variable, value: u64) {
        self.values.insert(v.0, value % P);
    }

    fn set_register(&mut self, r: Register, value: u32) {
        self.set(r.low, (value & 0xffff) as u64);
        self.set(r.high, (value >> 16) as u64);
    }

    fn register(&self, r: Register) -> u32 {
        (self.get(r.low).unwrap() + (self.get(r.high).unwrap() << 16)) as u32
    }

    fn bit(&self, b: Boolean) -> u64 {
        match b {
            Boolean::Is(v) => self.get(v).unwrap(),
            Boolean::Not(v) => 1 - self.get(v).unwrap(),
            Boolean::Constant(c) => c as u64,
        }
    }

    fn eval(&self, c: &Constraint) -> Option<u64> {
        let mut sum = 0;
        for term in c.terms() {
            let mut value = term.coefficient.to_reduced_u32() as u64;
            for v in [term.first, term.second].into_iter().flatten() {
                value = value * self.get(v)? % P;
            }
            sum = (sum + value) % P;
        }
        Some(sum)
    }

    fn apply(&mut self, rule: &WitnessRule, outside: &Outside) {
        match rule {
            WitnessRule::Expression(v, c) => {
                let value = self.eval(c).unwrap();
                self.set(*v, value);
            }
            WitnessRule::Chunks(r, chunks) => {
                let low = self.get(r.low).unwrap() as u16;
                let high = self.get(r.high).unwrap() as u16;
                let c = cut_instruction(low, high);
                self.set(chunks.opcode, c.opcode as u64);
                self.set(chunks.imm4_1, c.imm4_1 as u64);
                self.set(chunks.funct3, c.funct3 as u64);
                self.set(chunks.rs1_low, c.rs1_low as u64);
                self.set(chunks.rs1_high, c.rs1_high as u64);
                self.set(chunks.rs2_high, c.rs2_high as u64);
                self.set(chunks.imm10_5, c.imm10_5 as u64);
                self.set(chunks.sign_bit, c.sign_bit as u64);
            }
            WitnessRule::OpcodeBits(_, first, second) => {
                for (b, flag) in first.iter().chain(second).zip(&outside.flags) {
                    if let Boolean::Is(v) = b {
                        self.set(*v, *flag as u64);
                    }
                }
            }
            WitnessRule::TableOutputs(table, key, r) => {
                let key = self.eval(key).unwrap();
                let (a, b) = match table {
                    TableType::RomAddressSpaceSeparator => (0, key),
                    TableType::RomRead => {
                        assert_eq!(key, outside.pc as u64);
                        (outside.instruction as u64 & 0xffff, outside.instruction as u64 >> 16)
                    }
                    TableType::U16GetSignAndHighByte => (key >> 15, key >> 8),
                    _ => panic!("no outputs of {:?}", table),
                };
                self.set(r.low, a);
                self.set(r.high, b);
            }
            WitnessRule::Carry(v, c) => {
                let value = self.eval(c).unwrap();
                self.set(*v, (value > 0xffff) as u64);
            }
            WitnessRule::ZeroCheck(c, flag, inverted) => {
                let value = self.eval(c).unwrap();
                self.set(*flag, (value == 0) as u64);
                self.set(*inverted, inverse(value));
            }
            WitnessRule::Sum(rule) => {
                let active = self.bit(rule.exec_flag) == 1;
                if active || self.get(rule.result.low).is_none() {
                    let (a, b) = (self.register(rule.a), self.register(rule.b));
                    let result = match (active, rule.subtract) {
                        (false, _) => 0,
                        (true, false) => a.wrapping_add(b),
                        (true, true) => a.wrapping_sub(b),
                    };
                    let (y, z) = if rule.subtract { (b, result) } else { (a, b) };
                    let carry = active && (y & 0xffff) + (z & 0xffff) > 0xffff;
                    let overflow = active && y as u64 + z as u64 > u32::MAX as u64;
                    self.set_register(rule.result, result);
                    self.set(rule.carry.get_variable().unwrap(), carry as u64);
                    self.set(rule.overflow.get_variable().unwrap(), overflow as u64);
                }
            }
            WitnessRule::External(r, placeholder) => match placeholder {
                Placeholder::PcInit => self.set_register(*r, outside.pc),
                Placeholder::ShuffleRamReadValue(i) => {
                    self.set_register(*r, outside.read_values[*i as usize])
                }
                Placeholder::ShuffleRamAddress(i) => {
                    self.set_register(*r, outside.addresses[*i as usize])
                }
                Placeholder::ShuffleRamWriteValue(_) => self.set_register(*r, outside.written),
            },
        }
    }

    fn holds(&self, statement: &Statement, outside: &Outside) -> bool {
        match statement {
            Statement::Vanishes(c) => self.eval(c) == Some(0),
            Statement::InRange(v, width) => self.get(*v).unwrap() < 1 << width,
            Statement::InTable(table, a, b, c) => {
                let a = self.eval(a).unwrap();
                let b = self.eval(b).unwrap();
                let c = self.eval(c).unwrap();
                match table {
                    TableType::QuickDecodeDecompositionCheck4x4x4 => a < 16 && b < 16 && c < 16,
                    TableType::QuickDecodeDecompositionCheck7x3x6 => a < 128 && b < 8 && c < 64,
                    TableType::RomAddressSpaceSeparator => b == 0 && c == a,
                    TableType::RomRead => {
                        a == outside.pc as u64 && b + (c << 16) == outside.instruction as u64
                    }
                    TableType::U16GetSignAndHighByte => b == a >> 15 && c == a >> 8,
                    _ => true,
                }
            }
        }
    }
}

/// A row without accesses.
fn no_accesses(instruction: u32, flags: Vec<bool>) -> Outside {
    Outside { pc: 0, instruction, read_values: [0; 3], addresses: [0; 3], written: 0, flags }
}

fn flags(format: usize, families: &[bool]) -> Vec<bool> {
    let mut flags = vec![false; 7];
    flags[1 + format] = true;
    flags.extend(families);
    flags
}

/// A circuit that decodes the instruction in its first two variables.
fn describe_decoder() -> (BasicAssembly, DecoderInput) {
    let mut cs = BasicAssembly::new();
    let low = cs.add_variable();
    let high = cs.add_variable();
    (cs, DecoderInput { instruction: Register { low, high } })
}

/// Decodes an instruction of the given format: rs1, rs2, rd, the immediate, and whether the circuit
/// accepts what it computes.
fn decode(instruction: u32, format: usize) -> (u64, u64, u64, u32, bool) {
    let (mut cs, input) = describe_decoder();
    let (invalid, output, formats, others) = OptimizedDecoder::decode(&input, &mut cs, [4, 5]);
    assert_eq!(others.len(), 2);
    let (mut again, _) = describe_decoder();
    OptimizedDecoder::decode(&input, &mut again, [4, 5]);
    let outside = no_accesses(instruction, flags(format, &[true, false]));
    let mut w = Witness { values: BTreeMap::new() };
    w.set_register(input.instruction, instruction);
    for rule in &again.into_rules() {
        w.apply(rule, &outside);
    }
    assert_eq!(w.values.len(), cs.num_variables());
    let holds = (0..cs.num_statements()).all(|i| w.holds(cs.statement(i), &outside));
    assert_eq!(w.bit(invalid), 0);
    assert_eq!(w.bit(formats.r), (format == 0) as u64);
    assert_eq!(w.bit(formats.j), (format == 5) as u64);
    (
        w.get(output.rs1).unwrap(),
        w.eval(&output.rs2).unwrap(),
        w.eval(&output.rd).unwrap(),
        w.register(output.imm),
        holds,
    )
}

#[test]
fn decoded_fields_are_right() {
    // add x31, x17, x22
    let add = 22 << 20 | 17 << 15 | 31 << 7 | 0x33;
    let (rs1, rs2, rd, _, holds) = decode(add, 0);
    assert_eq!((rs1, rs2, rd), (17, 22, 31));
    assert!(holds);
}

#[test]
fn decoded_immediates_are_right() {
    // addi x1, x2, -5
    let (rs1, _, rd, imm, holds) = decode(0xffb1_0093, 1);
    assert!(holds);
    assert_eq!((rs1, rd, imm), (2, 1, 0xffff_fffb));
    // sw x3, 0x7e4(x4)
    let (rs1, rs2, _, imm, holds) = decode(0x7e32_2223, 2);
    assert!(holds);
    assert_eq!((rs1, rs2, imm), (4, 3, 0x7e4));
    // beq x5, x6, -8
    let (_, _, _, imm, holds) = decode(0xfe62_8ce3, 3);
    assert!(holds);
    assert_eq!(imm, 0xffff_fff8);
    // lui x7, 0xabcde
    let (_, _, rd, imm, holds) = decode(0xabcd_e3b7, 4);
    assert!(holds);
    assert_eq!((rd, imm), (7, 0xabcd_e000));
    // jal x1, 0x800
    let (_, _, rd, imm, holds) = decode(0x0010_00ef, 5);
    assert!(holds);
    assert_eq!((rd, imm), (1, 0x800));
}

fn keys() -> DecoderOutputExtraKeysHolder {
    DecoderOutputExtraKeysHolder {
        major_keys: vec![
            DecoderMajorInstructionFamilyKey::Add,
            DecoderMajorInstructionFamilyKey::Sub,
        ],
        minor_keys: vec![vec![], vec![]],
    }
}

/// A row of the machine in which only addition and subtraction contribute.
struct Row {
    cs: BasicAssembly,
    initial: MinimalStateRegistersInMemory,
    last: MinimalStateRegistersInMemory,
    rd: Register,
    accesses: [ShuffleRamMemQuery; 3],
}

/// Lets the families whose turn it is contribute nothing.
fn silent_families(mut row: StateTransition) -> StateTransition {
    while row.next_family().is_some() {
        row.record(CommonDiffs {
            exec_flag: Boolean::Constant(false),
            rd_value: vec![],
            new_pc_value: NextPcValue::Default,
        });
    }
    row
}

fn describe_row() -> Row {
    let mut cs = BasicAssembly::new();
    let mut row = FullIsaMachineWithDelegationNoExceptionHandling::describe_state_transition(
        &mut cs,
        [4, 5],
        keys(),
    );
    row = silent_families(row);
    let accesses = [row.rs1_query, row.rs2_or_mem_load_query, row.rd_or_mem_store_query];
    let (initial, last, rd) = row.finish(&mut cs);
    Row { cs, initial, last, rd, accesses }
}

/// The values of a row as its rules compute them, and the statements that they violate.
fn run_row(outside: &Outside) -> (Row, Witness, Vec<usize>) {
    let row = describe_row();
    let again = describe_row();
    let mut w = Witness { values: BTreeMap::new() };
    for rule in &again.cs.into_rules() {
        w.apply(rule, outside);
    }
    let missing: Vec<usize> =
        (0..row.cs.num_variables()).filter(|v| w.get(Variable(*v)).is_none()).collect();
    assert_eq!(missing, Vec::<usize>::new());
    let failing: Vec<usize> = (0..row.cs.num_statements())
        .filter(|i| !w.holds(row.cs.statement(*i), outside))
        .collect();
    (row, w, failing)
}

/// The inverse modulo `P`, and zero for zero.
fn inverse(x: u64) -> u64 {
    let mut result = 1;
    let mut base = x % P;
    let mut exponent = P - 2;
    while exponent > 0 {
        if exponent % 2 == 1 {
            result = result * base % P;
        }
        base = base * base % P;
        exponent /= 2;
    }
    result
}

fn arithmetic_row(a: u32, b: u32, subtract: bool) -> (u32, u32, Vec<usize>) {
    let written = if subtract { a.wrapping_sub(b) } else { a.wrapping_add(b) };
    let outside = Outside {
        pc: 0x1_fffc,
        instruction: (subtract as u32) << 30 | 2 << 20 | 1 << 15 | 3 << 7 | 0x33,
        read_values: [a, b, 0],
        addresses: [0, 2, 3],
        written,
        flags: flags(0, &[!subtract, subtract]),
    };
    let (row, w, failing) = run_row(&outside);
    (w.register(row.rd), w.register(row.last.pc), failing)
}

#[test]
fn row_adds() {
    assert_eq!(arithmetic_row(5, 7, false), (12, 0x2_0000, vec![]));
    assert_eq!(arithmetic_row(0xffff, 1, false), (0x1_0000, 0x2_0000, vec![]));
    assert_eq!(arithmetic_row(u32::MAX, 2, false), (1, 0x2_0000, vec![]));
}

#[test]
fn row_subtracts() {
    assert_eq!(arithmetic_row(7, 5, true), (2, 0x2_0000, vec![]));
    assert_eq!(arithmetic_row(0, 1, true), (u32::MAX, 0x2_0000, vec![]));
}

/// ADD x5, x1, x2 at the address zero, with 7 in x1, 9 in x2 and 100 in x5.
fn add_x5_x1_x2() -> Outside {
    Outside {
        pc: 0,
        instruction: 0x0020_82b3,
        read_values: [7, 9, 100],
        addresses: [0, 2, 5],
        written: 16,
        flags: flags(0, &[true, false]),
    }
}

/// The register that an access goes to.
fn register_of(access: &ShuffleRamMemQuery, w: &Witness) -> u64 {
    match access.query_type {
        ShuffleRamQueryType::RegisterOnly { register_index } => w.get(register_index).unwrap(),
        ShuffleRamQueryType::RegisterOrRam { is_register, address } => {
            assert_eq!(w.bit(is_register), 1);
            w.register(address) as u64
        }
    }
}

#[test]
fn row_accesses_the_registers_of_its_instruction() {
    let (row, w, failing) = run_row(&add_x5_x1_x2());
    assert_eq!(failing, Vec::<usize>::new());
    let [first, second, third] = &row.accesses;
    assert_eq!(register_of(first, &w), 1);
    assert_eq!(w.register(first.read_value), 7);
    assert_eq!(first.write_value, first.read_value);
    assert_eq!(register_of(second, &w), 2);
    assert_eq!(w.register(second.read_value), 9);
    assert_eq!(second.write_value, second.read_value);
    assert_eq!(register_of(third, &w), 5);
    assert_eq!(w.register(third.read_value), 100);
    assert_eq!(w.register(third.write_value), 16);
    assert_eq!(w.register(row.initial.pc), 0);
    assert_eq!(w.register(row.last.pc), 4);
}

#[test]
fn row_refuses_other_registers_and_values() {
    for addresses in [[0, 3, 5], [0, 2, 4], [0, 0x1_0002, 5], [0, 2, 0x1_0005], [0, 0, 0]] {
        let outside = Outside { addresses, ..add_x5_x1_x2() };
        assert!(!run_row(&outside).2.is_empty());
    }
    for written in [0, 17, 100, 0x1_0010] {
        let outside = Outside { written, ..add_x5_x1_x2() };
        assert!(!run_row(&outside).2.is_empty());
    }
}

#[test]
fn row_keeps_the_register_zero() {
    // add x0, x1, x2
    let outside = Outside {
        instruction: 0x0020_8033,
        addresses: [0, 2, 0],
        written: 0,
        ..add_x5_x1_x2()
    };
    let (row, w, failing) = run_row(&outside);
    assert_eq!(failing, Vec::<usize>::new());
    assert_eq!(w.register(row.rd), 16);
    let outside = Outside { written: 16, ..outside };
    assert!(!run_row(&outside).2.is_empty());
}

/// Closes a row with some flags for loads and stores.
fn close_with(load: Boolean, store: Boolean) -> [ShuffleRamMemQuery; 3] {
    let mut cs = BasicAssembly::new();
    let mut row = FullIsaMachineWithDelegationNoExceptionHandling::describe_state_transition(
        &mut cs,
        [4, 5],
        keys(),
    );
    while let Some(family) = row.next_family() {
        let exec_flag = match family {
            DecoderMajorInstructionFamilyKey::Load => load,
            DecoderMajorInstructionFamilyKey::Store => store,
            _ => Boolean::Constant(false),
        };
        row.record(CommonDiffs {
            exec_flag,
            rd_value: vec![],
            new_pc_value: NextPcValue::Default,
        });
    }
    [row.rs1_query, row.rs2_or_mem_load_query, row.rd_or_mem_store_query]
}

fn register_flag(access: &ShuffleRamMemQuery) -> Option<Boolean> {
    match access.query_type {
        ShuffleRamQueryType::RegisterOnly { .. } => None,
        ShuffleRamQueryType::RegisterOrRam { is_register, .. } => Some(is_register),
    }
}

#[test]
fn loads_and_stores_access_memory() {
    let flag = Variable(16);
    let accesses = close_with(Boolean::Is(flag), Boolean::Constant(true));
    assert_eq!(register_flag(&accesses[0]), None);
    assert_eq!(register_flag(&accesses[1]), Some(Boolean::Not(flag)));
    assert_eq!(register_flag(&accesses[2]), Some(Boolean::Constant(false)));
    let accesses = close_with(Boolean::Constant(false), Boolean::Not(flag));
    assert_eq!(register_flag(&accesses[1]), Some(Boolean::Constant(true)));
    assert_eq!(register_flag(&accesses[2]), Some(Boolean::Is(flag)));
}

#[test]
fn a_branch_writes_zero_to_the_register_zero() {
    // beq x1, x2, 8, whose bits for the destination register are not zero
    let outside = Outside {
        instruction: 0x0020_8463,
        addresses: [0, 2, 0],
        written: 0,
        flags: flags(3, &[false, false]),
        ..add_x5_x1_x2()
    };
    let (_, _, failing) = run_row(&outside);
    assert_eq!(failing, Vec::<usize>::new());
    let outside = Outside { addresses: [0, 2, 8], ..outside };
    assert!(!run_row(&outside).2.is_empty());
    let outside = Outside { addresses: [0, 2, 0], written: 16, ..outside };
    assert!(!run_row(&outside).2.is_empty());
}

#[test]
fn variants_are_chosen_by_their_flags() {
    let mut cs = BasicAssembly::new();
    let a = Register { low: cs.add_variable(), high: cs.add_variable() };
    let b = Register { low: cs.add_variable(), high: cs.add_variable() };
    let flags = vec![Boolean::Constant(false), Boolean::Constant(true)];
    let r = choose_from_orthogonal_variants(&mut cs, &flags, &vec![a, b]);
    let mut w = Witness { values: BTreeMap::new() };
    w.set_register(a, 0x1234_5678);
    w.set_register(b, 0x9abc_def0);
    let outside = no_accesses(0, vec![]);
    let rules = cs.into_rules();
    for rule in &rules {
        w.apply(rule, &outside);
    }
    assert_eq!(w.register(r), 0x9abc_def0);
}

#[test]
fn families_come_in_order() {
    let families = families_in_order();
    assert_eq!(families.len(), 13);
    assert_eq!(families[0], DecoderMajorInstructionFamilyKey::Add);
    assert_eq!(families[1], DecoderMajorInstructionFamilyKey::Sub);
    assert_eq!(families[12], DecoderMajorInstructionFamilyKey::Csr);
}

fn decoder_table() -> LookupTable {
    LookupTable {
        content: TableContent::Rows(vec![(0, 1, 0)]),
        id: TableType::OpTypeBitmask.to_table_id(),
    }
}

#[test]
fn families_declare_the_tables_of_the_machine() {
    let families = FullIsaMachineWithDelegationNoExceptionHandling::all_supported_opcodes().len();
    let mut declared = vec![vec![]; families - 1];
    declared[4] = vec![TableType::Xor, TableType::And];
    declared[7] = vec![TableType::Family(3), TableType::Xor];
    let family_table = LookupTable {
        content: TableContent::Rows(vec![(1, 2, 3)]),
        id: TableType::Family(3).to_table_id(),
    };
    let machine = FullIsaMachineWithDelegationNoExceptionHandling::tables(
        &declared,
        vec![(TableType::Family(3), family_table)],
        decoder_table(),
    );
    assert_eq!(machine.used_tables, vec![TableType::And, TableType::Xor]);
    assert!(machine.use_rom_for_bytecode);
    let driver = create_table_driver::<5>(machine);
    // Besides the declared ones: five that every machine has, the instructions, and the separator.
    assert_eq!(driver.num_tables(), 3 + 5 + 2);
    assert_eq!(driver.get_table(TableType::Family(3)).unwrap().row(0), (1, 2, 3));
    assert!(driver.get_table(TableType::Or).is_none());
}

#[test]
fn machine_compiles_to_its_description() {
    let Row { cs, last, .. } = describe_row();
    let families = FullIsaMachineWithDelegationNoExceptionHandling::all_supported_opcodes().len();
    let machine = FullIsaMachineWithDelegationNoExceptionHandling::tables(
        &vec![vec![]; families - 1],
        vec![],
        decoder_table(),
    );
    let output =
        compile_machine::<5, _>(machine, [4, 5], keys(), |cs, row| (cs, silent_families(row)));
    assert_eq!(output.circuit.num_variables(), cs.num_variables());
    assert_eq!(output.state_input, vec![Variable(0), Variable(1)]);
    assert_eq!(output.state_output, vec![last.pc.low, last.pc.high]);
    assert_eq!(output.table_driver.num_tables(), 8);
}

#[test]
fn decoder_subspace_of_addition_and_subtraction() {
    let (kind, major, minors) = AddOp.define_decoder_subspace(0x33, 0, 0).unwrap();
    assert_eq!(kind, InstructionType::RType);
    assert_eq!(major, DecoderMajorInstructionFamilyKey::Add);
    assert!(minors.is_empty());
    let (kind, _, _) = AddOp.define_decoder_subspace(0x13, 0, 0x55).unwrap();
    assert_eq!(kind, InstructionType::IType);
    assert!(AddOp.define_decoder_subspace(0x33, 0, 0x20).is_err());
    let (kind, major, _) = SubOp.define_decoder_subspace(0x33, 0, 0x20).unwrap();
    assert_eq!(kind, InstructionType::RType);
    assert_eq!(major, DecoderMajorInstructionFamilyKey::Sub);
    assert!(SubOp.define_decoder_subspace(0x13, 0, 0x20).is_err());
}

#[test]
fn used_tables_are_sorted_and_distinct() {
    let families = FullIsaMachineWithDelegationNoExceptionHandling::all_supported_opcodes().len();
    let mut declared = vec![vec![]; families - 1];
    declared[0] = vec![TableType::Xor, TableType::And];
    declared[2] = vec![TableType::And, TableType::Or];
    let tables = FullIsaMachineWithDelegationNoExceptionHandling::define_used_tables(&declared);
    assert_eq!(tables, vec![TableType::And, TableType::Or, TableType::Xor]);
}

#[test]
fn compile_full_machine_with_delegation() {
    const SECOND_WORD_BITS: usize = 4;
    let rom_table =
        create_table_for_rom_image::<SECOND_WORD_BITS>(&[], TableType::RomRead.to_table_id());
    let csr_table = create_csr_table_for_delegation(
        true,
        &[1991],
        TableType::SpecialCSRProperties.to_table_id(),
    );
    let families = FullIsaMachineWithDelegationNoExceptionHandling::all_supported_opcodes().len();
    let mut declared = vec![vec![]; families - 1];
    declared[0] = vec![TableType::And, TableType::Or, TableType::Xor];
    let machine = FullIsaMachineWithDelegationNoExceptionHandling::tables(
        &declared,
        vec![],
        decoder_table(),
    );
    let Row { cs, initial, last, .. } = describe_row();
    let (variables, statements) = (cs.num_variables(), cs.num_statements());
    let mut output = compile_machine::<SECOND_WORD_BITS, _>(
        machine,
        [4, 5],
        keys(),
        |cs, row| (cs, silent_families(row)),
    );
    output.table_driver.add_table_with_content(TableType::RomRead, rom_table);
    output.table_driver.add_table_with_content(TableType::SpecialCSRProperties, csr_table);
    assert_eq!(output.circuit.num_variables(), variables);
    assert_eq!(output.circuit.num_statements(), statements);
    assert_eq!(output.state_input, vec![initial.pc.low, initial.pc.high]);
    assert_eq!(output.state_output, vec![last.pc.low, last.pc.high]);
    let tables = output.table_driver;
    assert_eq!(tables.num_tables(), 12);
    assert_eq!(tables.get_table(TableType::RomRead).unwrap().num_rows(), 1 << 18);
    assert_eq!(tables.get_table(TableType::SpecialCSRProperties).unwrap().num_rows(), 1 << 12);
    assert_eq!(tables.get_table(TableType::SpecialCSRProperties).unwrap().row(1991), (1991, 1, 1));
    // Every table that the circuit looks into is there.
    for i in 0..output.circuit.num_statements() {
        if let Statement::InTable(table, _, _, _) = output.circuit.statement(i) {
            assert!(tables.get_table(*table).is_some());
        }
    }
}

#[test]
fn full_machine_with_delegation_get_witness_graph() {
    let variables = describe_row().cs.num_variables();
    let rules = dump_wintess_graph([4, 5], keys(), |cs, row| (cs, silent_families(row)));
    assert_eq!(rules.len(), describe_row().cs.into_rules().len());
    assert!(rules.iter().any(|r| matches!(r, WitnessRule::Chunks(_, _))));
    assert!(rules.iter().any(|r| matches!(r, WitnessRule::OpcodeBits(_, _, _))));
    for rule in &rules {
        if let WitnessRule::Expression(v, c) = rule {
            assert!(v.0 < variables);
            for term in c.terms() {
                for input in [term.first, term.second].into_iter().flatten() {
                    assert!(input.0 < v.0);
                }
            }
        }
    }
}
