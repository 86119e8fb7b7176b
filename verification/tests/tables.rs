use airbender::circuit::assembly::TableType;
use airbender::field::Mersenne31Field;
use airbender::riscv_cycles::{
    allowed_delegation_csrs, generate_artifacts, get_main_riscv_circuit_setup, get_table_driver_for_rom_bound,
    lde_source_cosets, DOMAIN_SIZE, MAX_ROM_SIZE, NUM_CYCLES,
};
use airbender::tables::csr::{create_csr_table_for_delegation, create_special_csr_properties_table};
use airbender::tables::driver::{create_table_driver, generate_table, MachineTables};
use airbender::tables::lookup::{LookupTable, TableContent};
use airbender::tables::rom::{create_table_for_rom_image, pad_bytecode};

fn lookup(table: &LookupTable, key: u32) -> (u32, u32) {
    let values = table.lookup_value(&[Mersenne31Field::new(key)]);
    (values[0].to_reduced_u32(), values[1].to_reduced_u32())
}

fn machine() -> MachineTables {
    MachineTables {
        used_tables: vec![TableType::And],
        extra_tables: vec![],
        decoder_table: LookupTable {
            content: TableContent::Rows(vec![(0, 1, 0)]),
            id: TableType::OpTypeBitmask.to_table_id(),
        },
        use_rom_for_bytecode: true,
    }
}

#[test]
fn rom_table_test() {
    let image = vec![100_000u32, 200_000, 0];
    let table = create_table_for_rom_image::<16>(&image, 15);
    assert_eq!(lookup(&table, 0), (100_000 & 0xffff, 100_000 >> 16));
    assert_eq!(lookup(&table, 0), (0x86a0, 1));
    assert_eq!(lookup(&table, 4), (0xd40, 3));
    assert_eq!(lookup(&table, 8), (0, 0));
    assert_eq!(lookup(&table, 12), (0x1073, 0xc000));
}

#[test]
fn program_is_padded_with_the_impossible_instruction() {
    let mut bytecode = vec![1u32, 2, 3];
    pad_bytecode::<32>(&mut bytecode);
    assert_eq!(bytecode.len(), 8);
    assert_eq!(&bytecode[..3], &[1, 2, 3]);
    assert!(bytecode[3..].iter().all(|w| *w == 0xc0001073));
}

#[test]
fn padding_a_full_program_changes_nothing() {
    let mut bytecode = vec![7u32; 4];
    pad_bytecode::<16>(&mut bytecode);
    assert_eq!(bytecode, vec![7u32; 4]);
}

#[test]
fn csr_table_knows_oracle_and_delegations() {
    let table = create_special_csr_properties_table(7, true, &[1991, 1994]);
    assert_eq!(lookup(&table, 0x7c0), (1, 0));
    assert_eq!(lookup(&table, 1991), (1, 1));
    assert_eq!(lookup(&table, 1994), (1, 1));
    assert_eq!(lookup(&table, 1992), (0, 0));
    assert_eq!(lookup(&table, 0xfff), (0, 0));
}

#[test]
fn csr_table_without_oracle() {
    let table = create_csr_table_for_delegation(false, &[1991], 7);
    assert_eq!(lookup(&table, 0x7c0), (0, 0));
    assert_eq!(lookup(&table, 1991), (1, 1));
}

#[test]
fn standard_tables() {
    let and = generate_table(TableType::And).unwrap();
    assert_eq!(and.num_rows(), 1 << 16);
    assert_eq!(and.row(0xf0f0), (0xf0, 0xf0, 0xf0));
    let or = generate_table(TableType::Or).unwrap();
    assert_eq!(or.num_rows(), 1 << 16);
    assert_eq!(or.row(0xf05a), (0xf0, 0x5a, 0xfa));
    let xor = generate_table(TableType::Xor).unwrap();
    assert_eq!(xor.num_rows(), 1 << 16);
    assert_eq!(xor.row(0xf05a), (0xf0, 0x5a, 0xaa));
    assert_eq!(xor.id, TableType::Xor.to_table_id());
    assert!(generate_table(TableType::RomRead).is_none());
    let sign = generate_table(TableType::U16GetSignAndHighByte).unwrap();
    assert_eq!(lookup(&sign, 0x8123), (1, 0x81));
    assert_eq!(lookup(&sign, 0x7fff), (0, 0x7f));
    let range = generate_table(TableType::RangeCheckSmall).unwrap();
    assert_eq!(lookup(&range, 0xff), (0, 0));
    let separator = LookupTable { content: TableContent::AddressSeparator(5), id: 10 };
    assert_eq!(lookup(&separator, 0x1f), (0, 0x1f));
    assert_eq!(lookup(&separator, 0x21), (1, 1));
    let rows = LookupTable { content: TableContent::Rows(vec![(0, 5, 6), (1, 7, 8)]), id: 1 };
    assert_eq!(lookup(&rows, 1), (7, 8));
}

#[test]
fn every_machine_has_the_width_tables() {
    let driver = create_table_driver::<5>(machine());
    assert!(driver.get_table(TableType::ZeroEntry).is_some());
    assert!(driver.get_table(TableType::RangeCheckSmall).is_some());
    assert!(driver.get_table(TableType::And).is_some());
    assert!(driver.get_table(TableType::RomRead).is_none());
    assert!(driver.get_table(TableType::Or).is_none());
}

#[test]
fn used_tables_are_taken_over() {
    let mut machine = machine();
    machine.used_tables = vec![TableType::And, TableType::Or, TableType::Xor];
    let driver = create_table_driver::<5>(machine);
    assert_eq!(driver.get_table(TableType::And).unwrap().row(0x0f3c), (0x0f, 0x3c, 0x0c));
    assert_eq!(driver.get_table(TableType::Or).unwrap().row(0x0f3c), (0x0f, 0x3c, 0x3f));
    assert_eq!(driver.get_table(TableType::Xor).unwrap().row(0x0f3c), (0x0f, 0x3c, 0x33));
    assert_eq!(driver.num_tables(), 10);
}

#[test]
fn table_ids_are_distinct() {
    let types = [
        TableType::ZeroEntry,
        TableType::OpTypeBitmask,
        TableType::CsrBitmask,
        TableType::RangeCheckSmall,
        TableType::And,
        TableType::Or,
        TableType::Xor,
        TableType::RomRead,
        TableType::SpecialCSRProperties,
    ];
    for (i, a) in types.iter().enumerate() {
        for b in types.iter().skip(i + 1) {
            assert_ne!(a.to_table_id(), b.to_table_id());
        }
    }
}

#[test]
fn program_tables_come_last() {
    let bytecode = vec![0x13u32; 1 << 15];
    let driver = get_table_driver_for_rom_bound::<1>(machine(), &bytecode, &[1991]);
    let rom = driver.get_table(TableType::RomRead).unwrap();
    assert_eq!(lookup(rom, 400), (0x13, 0));
    let csr = driver.get_table(TableType::SpecialCSRProperties).unwrap();
    assert_eq!(lookup(csr, 1991), (1, 1));
    assert_eq!(lookup(csr, 0x7c0), (1, 0));
}

#[test]
fn generate() {
    let compilation = generate_artifacts();
    assert_eq!(compilation.trace_len_log2, 22);
    assert_eq!(compilation.rom_table.num_rows(), 1 << 19);
    assert_eq!(lookup(&compilation.rom_table, 4), (0, 0));
    assert_eq!(lookup(&compilation.csr_table, 1991), (1, 1));
}

#[test]
fn setup_of_the_main_circuit() {
    assert_eq!(NUM_CYCLES, DOMAIN_SIZE - 1);
    assert_eq!(allowed_delegation_csrs(), vec![1991, 1994]);
    let mut bytecode = vec![0x93u32];
    pad_bytecode::<0x20_0000>(&mut bytecode);
    assert_eq!(bytecode.len() * 4, MAX_ROM_SIZE);
    let setup = get_main_riscv_circuit_setup(machine(), &bytecode);
    assert_eq!(setup.domain_size, 1 << 22);
    assert_eq!(setup.lde_factor, 2);
    assert_eq!(setup.lde_source_cosets, lde_source_cosets());
    assert_eq!(setup.tree_cap_size, 32);
    assert_eq!(setup.compilation.trace_len_log2, 22);
    assert_eq!(lookup(&setup.compilation.rom_table, 0), (0x93, 0));
    assert_eq!(lookup(&setup.compilation.rom_table, 4), (0x1073, 0xc000));
    assert_eq!(lookup(&setup.compilation.csr_table, 1994), (1, 1));
}
