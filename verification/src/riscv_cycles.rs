//! The circuit of the main machine: its sizes, and what its compilation and its setup are made of.
use crate::circuit::assembly::TableType;
use crate::circuit::machine::FullIsaMachineWithDelegationNoExceptionHandling;
use crate::simulator::config::{
    BLAKE2_ROUND_FUNCTION_WITH_EXTENDED_CONTROL_ACCESS_ID, U256_OPS_WITH_CONTROL_ACCESS_ID,
};
use crate::tables::csr::create_csr_table_for_delegation;
use crate::tables::driver;
use crate::tables::driver::{create_program_tables, MachineTables, TableDriver};
use crate::tables::lookup;
use crate::tables::lookup::{LookupTable, ORACLE_CSR};
use crate::tables::rom::create_table_for_rom_image;
use vstd::prelude::*;

verus! {

/// The number of rows of the main circuit.
pub const DOMAIN_SIZE: usize = 0x40_0000;

/// The number of rows of the main circuit, as a power of two.
pub const DOMAIN_SIZE_LOG2: usize = 22;

/// The number of cycles that the main circuit holds.
pub const NUM_CYCLES: usize = 0x3f_ffff;

/// How much larger the extended domain is.
pub const LDE_FACTOR: usize = 2;

/// The number of roots that a commitment consists of.
pub const TREE_CAP_SIZE: usize = 32;

/// The greatest size of a program, in bytes.
pub const MAX_ROM_SIZE: usize = 0x20_0000;

/// The number of address bits of a program beyond 16.
pub const ROM_ADDRESS_SPACE_SECOND_WORD_BITS: usize = 5;

/// The machine of the main circuit.
pub type Machine = FullIsaMachineWithDelegationNoExceptionHandling;

/// The delegations that the main machine may request.
pub open spec fn allowed_delegations() -> Seq<u32> {
    seq![
        BLAKE2_ROUND_FUNCTION_WITH_EXTENDED_CONTROL_ACCESS_ID,
        U256_OPS_WITH_CONTROL_ACCESS_ID,
    ]
}

/// The delegations that the main machine may request.
pub fn allowed_delegation_csrs() -> (r: Vec<u32>)
    ensures
        r@ == allowed_delegations(),
{
    let r = vec![
        BLAKE2_ROUND_FUNCTION_WITH_EXTENDED_CONTROL_ACCESS_ID,
        U256_OPS_WITH_CONTROL_ACCESS_ID,
    ];
    assert(r@ =~= allowed_delegations());
    r
}

/// The cosets that the extension starts from.
pub fn lde_source_cosets() -> (r: Vec<usize>)
    ensures
        r@ == seq![0usize, 1usize],
{
    let r = vec![0usize, 1usize];
    assert(r@ =~= seq![0usize, 1usize]);
    r
}

pub fn formal_machine_for_compilation() -> (r: Machine)
    ensures
        r == FullIsaMachineWithDelegationNoExceptionHandling,
{
    FullIsaMachineWithDelegationNoExceptionHandling
}

/// What a compiler needs to lay out the main circuit: the machine, the program, the CSRs that it may
/// use, and the number of rows.
pub struct MachineCompilation {
    pub machine: Machine,
    pub rom_table: LookupTable,
    pub csr_table: LookupTable,
    pub trace_len_log2: usize,
}

/// Whether a list of CSR numbers can be one of delegations.
pub open spec fn are_delegations(csrs: Seq<u32>) -> bool {
    &&& forall|i: int| 0 <= i < csrs.len() ==> #[trigger] csrs[i] < 0x1000
    &&& !csrs.contains(ORACLE_CSR)
}

/// Whether a compilation is that of a program with some delegations.
pub open spec fn is_compilation(
    c: MachineCompilation,
    bits: int,
    bytecode: Seq<u32>,
    delegations: Seq<u32>,
) -> bool {
    &&& c.rom_table.id == TableType::RomRead.id()
    &&& c.rom_table.content is Program
    &&& c.rom_table.content->Program_0@ == bytecode
    &&& c.rom_table.content->Program_1 == bits
    &&& c.csr_table.id == TableType::SpecialCSRProperties.id()
    &&& c.csr_table.content is CsrProperties
    &&& c.csr_table.content->CsrProperties_0
    &&& c.csr_table.content->CsrProperties_1@ == delegations
    &&& c.trace_len_log2 == DOMAIN_SIZE_LOG2
}

/// The compilation of a program that fills its memory.
pub fn get_machine_for_rom_bound<const ROM_ADDRESS_SPACE_SECOND_WORD_BITS: usize>(
    bytecode: &[u32],
    delegation_csrs: &[u32],
) -> (r: MachineCompilation)
    requires
        0 < ROM_ADDRESS_SPACE_SECOND_WORD_BITS <= 16,
        bytecode@.len() == lookup::power_of_two(16 + ROM_ADDRESS_SPACE_SECOND_WORD_BITS) / 4,
        are_delegations(delegation_csrs@),
    ensures
        is_compilation(
            r,
            ROM_ADDRESS_SPACE_SECOND_WORD_BITS as int,
            bytecode@,
            delegation_csrs@,
        ),
{
    let rom_table = create_table_for_rom_image::<ROM_ADDRESS_SPACE_SECOND_WORD_BITS>(
        bytecode,
        TableType::RomRead.to_table_id(),
    );
    let csr_table = create_csr_table_for_delegation(
        true,
        delegation_csrs,
        TableType::SpecialCSRProperties.to_table_id(),
    );
    MachineCompilation {
        machine: FullIsaMachineWithDelegationNoExceptionHandling,
        rom_table,
        csr_table,
        trace_len_log2: DOMAIN_SIZE_LOG2,
    }
}

proof fn lemma_rom_words()
    ensures
        lookup::power_of_two(21) / 4 == 0x8_0000,
{
    vstd::arithmetic::power2::lemma2_to64();
}

/// The compilation of a program of the main machine.
pub fn get_machine(bytecode: &[u32], delegation_csrs: &[u32]) -> (r: MachineCompilation)
    requires
        bytecode@.len() * 4 == MAX_ROM_SIZE,
        are_delegations(delegation_csrs@),
    ensures
        is_compilation(r, 5, bytecode@, delegation_csrs@),
{
    proof {
        lemma_rom_words();
    }
    get_machine_for_rom_bound::<ROM_ADDRESS_SPACE_SECOND_WORD_BITS>(bytecode, delegation_csrs)
}

/// The tables of a machine with those of a program.
pub open spec fn are_program_tables(
    tables: Seq<(TableType, LookupTable)>,
    machine: MachineTables,
    bits: int,
    bytecode: Seq<u32>,
    delegations: Seq<u32>,
) -> bool {
    let common = driver::machine_tables(machine, bits);
    let n = common.len() as int;
    &&& tables.len() == n + 2
    &&& tables.take(n) == common
    &&& tables[n].0 == TableType::RomRead
    &&& tables[n].1.id == TableType::RomRead.id()
    &&& tables[n].1.content is Program
    &&& tables[n].1.content->Program_0@ == bytecode
    &&& tables[n].1.content->Program_1 == bits
    &&& tables[n + 1].0 == TableType::SpecialCSRProperties
    &&& tables[n + 1].1.id == TableType::SpecialCSRProperties.id()
    &&& tables[n + 1].1.content is CsrProperties
    &&& tables[n + 1].1.content->CsrProperties_0
    &&& tables[n + 1].1.content->CsrProperties_1@ == delegations
}

/// A machine and a program determine their tables: the same tables in the same order, with the same
/// numbers and the same rows.
pub proof fn law_program_tables_are_determined(
    a: Seq<(TableType, LookupTable)>,
    b: Seq<(TableType, LookupTable)>,
    machine: MachineTables,
    bits: int,
    bytecode: Seq<u32>,
    delegations: Seq<u32>,
    i: int,
)
    requires
        are_program_tables(a, machine, bits, bytecode, delegations),
        are_program_tables(b, machine, bits, bytecode, delegations),
        0 <= i < a.len(),
    ensures
        a.len() == b.len(),
        a[i].0 == b[i].0,
        a[i].1.id == b[i].1.id,
        a[i].1.content.rows() == b[i].1.content.rows(),
        forall|j: int| #[trigger] a[i].1.content.row_at(j) == b[i].1.content.row_at(j),
{
    let n = driver::machine_tables(machine, bits).len() as int;
    if i < n {
        assert(a[i] == a.take(n)[i]);
        assert(b[i] == b.take(n)[i]);
    }
}

/// The tables of a machine with those of a program that fills its memory.
pub fn get_table_driver_for_rom_bound<const ROM_ADDRESS_SPACE_SECOND_WORD_BITS: usize>(
    machine: MachineTables,
    bytecode: &[u32],
    delegation_csrs: &[u32],
) -> (r: TableDriver)
    requires
        0 < ROM_ADDRESS_SPACE_SECOND_WORD_BITS <= 16,
        machine.well_formed(),
        machine.leaves_program_tables(),
        bytecode@.len() == lookup::power_of_two(16 + ROM_ADDRESS_SPACE_SECOND_WORD_BITS) / 4,
        are_delegations(delegation_csrs@),
    ensures
        are_program_tables(
            r@,
            machine,
            ROM_ADDRESS_SPACE_SECOND_WORD_BITS as int,
            bytecode@,
            delegation_csrs@,
        ),
{
    create_program_tables::<ROM_ADDRESS_SPACE_SECOND_WORD_BITS>(
        machine,
        bytecode,
        delegation_csrs,
    )
}

/// The tables of the main machine with those of a program.
pub fn get_table_driver(
    machine: MachineTables,
    bytecode: &[u32],
    delegation_csrs: &[u32],
) -> (r: TableDriver)
    requires
        machine.well_formed(),
        machine.leaves_program_tables(),
        bytecode@.len() * 4 == MAX_ROM_SIZE,
        are_delegations(delegation_csrs@),
    ensures
        are_program_tables(r@, machine, 5, bytecode@, delegation_csrs@),
{
    proof {
        lemma_rom_words();
    }
    get_table_driver_for_rom_bound::<ROM_ADDRESS_SPACE_SECOND_WORD_BITS>(
        machine,
        bytecode,
        delegation_csrs,
    )
}

/// What the setup of the main circuit is computed from.
pub struct MainCircuitPrecomputations {
    pub compilation: MachineCompilation,
    pub table_driver: TableDriver,
    pub domain_size: usize,
    pub lde_factor: usize,
    pub lde_source_cosets: Vec<usize>,
    pub tree_cap_size: usize,
}

/// Gathers what the setup of the main circuit of a program is computed from: the compilation and
/// the tables, both with the delegations of the main machine, and the sizes of the domains.
pub fn get_main_riscv_circuit_setup(machine: MachineTables, bytecode: &[u32]) -> (r:
    MainCircuitPrecomputations)
    requires
        machine.well_formed(),
        machine.leaves_program_tables(),
        bytecode@.len() * 4 == MAX_ROM_SIZE,
    ensures
        is_compilation(r.compilation, 5, bytecode@, allowed_delegations()),
        are_program_tables(r.table_driver@, machine, 5, bytecode@, allowed_delegations()),
        r.domain_size == DOMAIN_SIZE,
        r.lde_factor == LDE_FACTOR,
        r.lde_source_cosets@ == seq![0usize, 1usize],
        r.tree_cap_size == TREE_CAP_SIZE,
{
    let delegation_csrs = allowed_delegation_csrs();
    let compilation = get_machine(bytecode, delegation_csrs.as_slice());
    let table_driver = get_table_driver(machine, bytecode, delegation_csrs.as_slice());
    MainCircuitPrecomputations {
        compilation,
        table_driver,
        domain_size: DOMAIN_SIZE,
        lde_factor: LDE_FACTOR,
        lde_source_cosets: lde_source_cosets(),
        tree_cap_size: TREE_CAP_SIZE,
    }
}

/// The sizes fit together: a chunk is one cycle short of the domain, and a program that fills its
/// memory has as many words as its table has rows.
pub proof fn law_sizes_fit()
    ensures
        NUM_CYCLES == DOMAIN_SIZE - 1,
        DOMAIN_SIZE == lookup::power_of_two(DOMAIN_SIZE_LOG2 as int),
        MAX_ROM_SIZE == lookup::power_of_two(16 + ROM_ADDRESS_SPACE_SECOND_WORD_BITS),
{
    vstd::arithmetic::power2::lemma2_to64();
}

/// The program that stands for any other where only the shape of the circuit matters: zeros that
/// fill the program memory.
fn dummy_bytecode() -> (r: Vec<u32>)
    ensures
        r@ == Seq::new((MAX_ROM_SIZE / 4) as nat, |i: int| 0u32),
{
    let r = vec![0u32;MAX_ROM_SIZE / 4];
    assert(r@ =~= Seq::new((MAX_ROM_SIZE / 4) as nat, |i: int| 0u32));
    r
}

/// The compilation from which the layout, the quotient and the witness functions of the main circuit
/// are generated. They do not depend on the program, so that any stands for all.
pub fn generate_artifacts() -> (r: MachineCompilation)
    ensures
        is_compilation(
            r,
            5,
            Seq::new((MAX_ROM_SIZE / 4) as nat, |i: int| 0u32),
            allowed_delegations(),
        ),
{
    let bytecode = dummy_bytecode();
    let delegation_csrs = allowed_delegation_csrs();
    get_machine(bytecode.as_slice(), delegation_csrs.as_slice())
}

/// The sizes of the main circuit and the delegations of its machine.
pub proof fn law_main_circuit()
    ensures
        DOMAIN_SIZE == vstd::arithmetic::power2::pow2(22),
        DOMAIN_SIZE_LOG2 == 22,
        NUM_CYCLES == vstd::arithmetic::power2::pow2(22) - 1,
        LDE_FACTOR == 2,
        TREE_CAP_SIZE == 32,
        MAX_ROM_SIZE == vstd::arithmetic::power2::pow2(21),
        ROM_ADDRESS_SPACE_SECOND_WORD_BITS == 5,
        allowed_delegations() == seq![1991u32, 1994u32],
{
    vstd::arithmetic::power2::lemma2_to64();
    assert(allowed_delegations() =~= seq![1991u32, 1994u32]);
}

/// The tables of a compilation answer every request as the program and its delegations tell: what
/// is read at an address is the word of the program there, and a CSR is supported if it is that of
/// the oracle or one of the delegations.
pub proof fn law_compilation_holds_the_program(
    c: MachineCompilation,
    bits: int,
    bytecode: Seq<u32>,
    delegations: Seq<u32>,
    i: int,
    csr: u32,
)
    requires
        is_compilation(c, bits, bytecode, delegations),
        are_delegations(delegations),
    ensures
        c.trace_len_log2 == 22,
        ({
            let (address, low, high) = c.rom_table.content.row_at(i);
            &&& address == 4 * i
            &&& 0 <= i < bytecode.len() ==> 0x1_0000 * high + low == bytecode[i]
            &&& i >= bytecode.len() ==> 0x1_0000 * high + low == 0xc000_1073
        }),
        c.rom_table.content.rows() == vstd::arithmetic::power2::pow2((14 + bits) as nat),
        ({
            let (number, supported, delegates) = c.csr_table.content.row_at(csr as int);
            &&& number == csr
            &&& delegates == if delegations.contains(csr) {
                1int
            } else {
                0int
            }
            &&& supported == if delegations.contains(csr) || csr == 0x7c0 {
                1int
            } else {
                0int
            }
        }),
{
}

/// Behind the tables of the machine stand the program and its CSRs, and these hold what the tables
/// of the compilation hold.
pub proof fn law_setup_agrees_with_compilation(
    tables: Seq<(TableType, LookupTable)>,
    c: MachineCompilation,
    machine: MachineTables,
    bits: int,
    bytecode: Seq<u32>,
    delegations: Seq<u32>,
    i: int,
)
    requires
        is_compilation(c, bits, bytecode, delegations),
        are_program_tables(tables, machine, bits, bytecode, delegations),
    ensures
        ({
            let n = driver::machine_tables(machine, bits).len() as int;
            &&& tables.len() == n + 2
            &&& 0 <= i < n ==> tables[i] == driver::machine_tables(machine, bits)[i]
            &&& tables[n].0 == TableType::RomRead
            &&& tables[n].1.id == c.rom_table.id
            &&& tables[n].1.content.rows() == c.rom_table.content.rows()
            &&& tables[n].1.content.row_at(i) == c.rom_table.content.row_at(i)
            &&& tables[n + 1].0 == TableType::SpecialCSRProperties
            &&& tables[n + 1].1.id == c.csr_table.id
            &&& tables[n + 1].1.content.rows() == c.csr_table.content.rows()
            &&& tables[n + 1].1.content.row_at(i) == c.csr_table.content.row_at(i)
        }),
{
    let n = driver::machine_tables(machine, bits).len() as int;
    if 0 <= i < n {
        assert(tables[i] == tables.take(n)[i]);
    }
}

} // verus!
