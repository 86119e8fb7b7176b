//! The machines that rows describe: the full instruction set with delegations.
use crate::circuit::assembly;
use crate::circuit::assembly::{
    BasicAssembly, OutsideValues, TableContents, TableType, WitnessRule,
};
use crate::circuit::decoder::NUM_INSTRUCTION_TYPES;
use crate::circuit::expression::Variable;
use crate::circuit::flags;
use crate::circuit::flags::{
    DecoderMajorInstructionFamilyKey, DecoderOutputExtraKeysHolder, ADD_OP_KEY, SUB_OP_KEY,
};
use crate::circuit::ops;
use crate::circuit::row::MinimalStateRegistersInMemory;
use crate::circuit::state_transition;
use crate::circuit::transition;
use crate::circuit::transition::{optimized_base_isa_state_transition, StateTransition};
use crate::circuit::writeback;
use crate::tables::driver;
use crate::tables::driver::{create_table_driver, MachineTables, TableDriver};
use crate::tables::lookup::LookupTable;
use vstd::prelude::*;

verus! {

/// A family of instructions with its options.
#[derive(Clone, Copy, PartialEq, Eq, Structural, Debug)]
pub enum OpcodeFamily {
    AddOp,
    SubOp,
    LuiOp,
    AuiPc,
    BinaryOp,
    MulOp { support_signed: bool },
    DivRemOp { support_signed: bool },
    ConditionalOp { support_signed: bool },
    ShiftOp { support_sra: bool, support_rot: bool },
    JumpOp,
    LoadOp { support_signed: bool, support_less_than_word: bool },
    StoreOp { support_less_than_word: bool },
    CsrOp { support_csrrc: bool, support_csrrs: bool, support_csr_immediates: bool },
}

impl OpcodeFamily {
    pub open spec fn key(self) -> DecoderMajorInstructionFamilyKey {
        match self {
            OpcodeFamily::AddOp => DecoderMajorInstructionFamilyKey::Add,
            OpcodeFamily::SubOp => DecoderMajorInstructionFamilyKey::Sub,
            OpcodeFamily::LuiOp => DecoderMajorInstructionFamilyKey::Lui,
            OpcodeFamily::AuiPc => DecoderMajorInstructionFamilyKey::AuiPc,
            OpcodeFamily::BinaryOp => DecoderMajorInstructionFamilyKey::Binary,
            OpcodeFamily::MulOp { .. } => DecoderMajorInstructionFamilyKey::Mul,
            OpcodeFamily::DivRemOp { .. } => DecoderMajorInstructionFamilyKey::DivRem,
            OpcodeFamily::ConditionalOp { .. } => DecoderMajorInstructionFamilyKey::Conditional,
            OpcodeFamily::ShiftOp { .. } => DecoderMajorInstructionFamilyKey::Shift,
            OpcodeFamily::JumpOp => DecoderMajorInstructionFamilyKey::Jump,
            OpcodeFamily::LoadOp { .. } => DecoderMajorInstructionFamilyKey::Load,
            OpcodeFamily::StoreOp { .. } => DecoderMajorInstructionFamilyKey::Store,
            OpcodeFamily::CsrOp { .. } => DecoderMajorInstructionFamilyKey::Csr,
        }
    }
}

/// The full instruction set with delegations, without a way to handle exceptions: a program that
/// would raise one has no witness.
#[derive(Clone, Copy, Debug)]
pub struct FullIsaMachineWithDelegationNoExceptionHandling;

/// The tables of a list of lists, each once.
pub open spec fn lists_table(declared: Seq<Vec<TableType>>, table: TableType) -> bool {
    exists|i: int| 0 <= i < declared.len() && (#[trigger] declared[i])@.contains(table)
}

/// Sorted by number, without repetitions.
pub open spec fn is_sorted(tables: Seq<TableType>) -> bool {
    forall|i: int, j: int|
        0 <= i < j < tables.len() ==> (#[trigger] tables[i]).id() < (#[trigger] tables[j]).id()
}

/// Puts a table at its place in a sorted list, unless it is there.
fn insert_table(tables: &mut Vec<TableType>, table: TableType)
    requires
        is_sorted(old(tables)@),
    ensures
        is_sorted(final(tables)@),
        forall|t: TableType| #[trigger]
            final(tables)@.contains(t) <==> old(tables)@.contains(t) || t == table,
{
    let id: u32 = table.to_table_id();
    let mut i: usize = 0;
    while i < tables.len() && tables[i].to_table_id() < id
        invariant
            i <= tables@.len(),
            tables@ == old(tables)@,
            id == table.id(),
            forall|k: int| 0 <= k < i ==> (#[trigger] tables@[k]).id() < id,
        decreases tables@.len() - i,
    {
        i = i + 1;
    }
    if i < tables.len() && tables[i].to_table_id() == id {
        proof {
            assembly::law_table_ids_are_distinct(tables@[i as int], table);
            assert(tables@.contains(table));
        }
        return ;
    }
    let ghost before = tables@;
    tables.insert(i, table);
    proof {
        let after = tables@;
        assert(after =~= before.insert(i as int, table));
        assert forall|j: int, k: int| 0 <= j < k < after.len() implies (#[trigger] after[j]).id() < (
        #[trigger] after[k]).id() by {
            let (x, y) = (
                if j < i {
                    j
                } else {
                    j - 1
                },
                if k < i {
                    k
                } else {
                    k - 1
                },
            );
            if j != i {
                assert(after[j] == before[x]);
            }
            if k != i {
                assert(after[k] == before[y]);
            }
            if i < before.len() {
                assert(id < before[i as int].id());
                if k - 1 > i {
                    assert(before[i as int].id() < before[k - 1].id());
                }
            }
        }
        assert forall|t: TableType| #[trigger]
            after.contains(t) <==> before.contains(t) || t == table by {
            if before.contains(t) {
                let k = choose|k: int| 0 <= k < before.len() && before[k] == t;
                if k < i {
                    assert(after[k] == t);
                } else {
                    assert(after[k + 1] == t);
                }
            }
            if after.contains(t) && t != table {
                let k = choose|k: int| 0 <= k < after.len() && after[k] == t;
                if k < i {
                    assert(before[k] == t);
                } else {
                    assert(before[k - 1] == t);
                }
            }
            assert(after[i as int] == table);
        }
    }
}

/// Whether a family may declare that it uses a table.
pub open spec fn can_be_declared(table: TableType) -> bool {
    ||| table is Family
    ||| driver::standard_content(table) is Some && table != TableType::ZeroEntry && table
        != TableType::RangeCheckSmall
}

/// Whether `tables` are those that the families declare and bring along, in the order of their
/// numbers.
pub open spec fn are_family_tables(
    tables: Seq<(TableType, LookupTable)>,
    declared: Seq<Vec<TableType>>,
) -> bool {
    &&& forall|i: int| 0 <= i < tables.len() ==> (#[trigger] tables[i]).0 is Family
    &&& forall|i: int, j: int|
        0 <= i < j < tables.len() ==> (#[trigger] tables[i]).0.id() < (#[trigger] tables[j]).0.id()
    &&& forall|t: TableType|
        t is Family ==> (#[trigger] driver::lists(tables, t) <==> lists_table(declared, t))
}

/// The tables of a machine that are not its program's: what its families declare, the common ones,
/// that of its instructions, and the one that tells program memory from the rest; and no others.
pub proof fn law_machine_has_declared_tables(
    machine: MachineTables,
    declared: Seq<Vec<TableType>>,
    bits: int,
    table: TableType,
)
    requires
        forall|t: TableType| #[trigger]
            machine.used_tables@.contains(t) <==> lists_table(declared, t) && t !is Family,
        are_family_tables(machine.extra_tables@, declared),
        machine.use_rom_for_bytecode,
    ensures
        driver::lists(driver::machine_tables(machine, bits), table) <==> {
            ||| lists_table(declared, table)
            ||| driver::common_tables().contains(table)
            ||| table == TableType::OpTypeBitmask
            ||| table == TableType::RomAddressSpaceSeparator
        },
{
    driver::law_machine_has_its_tables(machine, bits, table);
    if driver::lists(machine.extra_tables@, table) {
        assert(table is Family);
    }
    assert(machine.used_tables@.contains(table) <==> lists_table(declared, table)
        && table !is Family);
}

/// What the machine needs to describe a row: how the row of the table of instructions is cut, and
/// the keys of the families, addition and subtraction among them.
pub open spec fn can_describe(parts: (int, int), keys: DecoderOutputExtraKeysHolder) -> bool {
    &&& 0 <= parts.0 <= 30
    &&& 0 <= parts.1 <= 30
    &&& parts.0 + parts.1 >= 1 + NUM_INSTRUCTION_TYPES
    &&& keys.well_formed()
    &&& keys.major_keys@.contains(ADD_OP_KEY)
    &&& keys.major_keys@.contains(SUB_OP_KEY)
    &&& keys.major_keys@.len() + flags::greatest_length(flags::minor_lists(keys)) + 1
        + NUM_INSTRUCTION_TYPES == parts.0 + parts.1
}

impl FullIsaMachineWithDelegationNoExceptionHandling {
    /// The families of the machine.
    pub open spec fn families() -> Seq<OpcodeFamily> {
        seq![
            OpcodeFamily::AddOp,
            OpcodeFamily::SubOp,
            OpcodeFamily::LuiOp,
            OpcodeFamily::AuiPc,
            OpcodeFamily::BinaryOp,
            OpcodeFamily::MulOp { support_signed: true },
            OpcodeFamily::DivRemOp { support_signed: true },
            OpcodeFamily::ConditionalOp { support_signed: true },
            OpcodeFamily::ShiftOp { support_sra: true, support_rot: false },
            OpcodeFamily::JumpOp,
            OpcodeFamily::LoadOp { support_signed: true, support_less_than_word: true },
            OpcodeFamily::StoreOp { support_less_than_word: true },
            OpcodeFamily::CsrOp {
                support_csrrc: false,
                support_csrrs: false,
                support_csr_immediates: false,
            },
        ]
    }

    /// Whether the code that is executed is known not to raise exceptions.
    pub fn assume_trusted_code() -> (r: bool)
        ensures
            r,
    {
        true
    }

    /// Whether a row reports which exception it raised.
    pub fn output_exact_exceptions() -> (r: bool)
        ensures
            !r,
    {
        false
    }

    /// Whether instructions are read from a table.
    pub fn use_rom_for_bytecode() -> (r: bool)
        ensures
            r,
    {
        true
    }

    /// The families of the machine.
    pub fn all_supported_opcodes() -> (r: Vec<OpcodeFamily>)
        ensures
            r@ == Self::families(),
    {
        let r = vec![
            OpcodeFamily::AddOp,
            OpcodeFamily::SubOp,
            OpcodeFamily::LuiOp,
            OpcodeFamily::AuiPc,
            OpcodeFamily::BinaryOp,
            OpcodeFamily::MulOp { support_signed: true },
            OpcodeFamily::DivRemOp { support_signed: true },
            OpcodeFamily::ConditionalOp { support_signed: true },
            OpcodeFamily::ShiftOp { support_sra: true, support_rot: false },
            OpcodeFamily::JumpOp,
            OpcodeFamily::LoadOp { support_signed: true, support_less_than_word: true },
            OpcodeFamily::StoreOp { support_less_than_word: true },
            OpcodeFamily::CsrOp {
                support_csrrc: false,
                support_csrrs: false,
                support_csr_immediates: false,
            },
        ];
        assert(r@ =~= Self::families());
        r
    }

    /// The tables that the machine uses: what its families declare, each table once and in the
    /// order of their numbers. The last family is left out, as its table comes from elsewhere.
    pub fn define_used_tables(declared: &Vec<Vec<TableType>>) -> (r: Vec<TableType>)
        requires
            declared@.len() == Self::families().len() - 1,
        ensures
            is_sorted(r@),
            forall|t: TableType| #[trigger] r@.contains(t) <==> lists_table(declared@, t),
    {
        let mut set: Vec<TableType> = Vec::new();
        let mut i: usize = 0;
        while i < declared.len()
            invariant
                i <= declared@.len(),
                is_sorted(set@),
                forall|t: TableType| #[trigger]
                    set@.contains(t) <==> lists_table(declared@.take(i as int), t),
            decreases declared@.len() - i,
        {
            let ghost before = set@;
            let mut k: usize = 0;
            while k < declared[i].len()
                invariant
                    i < declared@.len(),
                    k <= declared@[i as int]@.len(),
                    is_sorted(set@),
                    forall|t: TableType| #[trigger]
                        set@.contains(t) <==> before.contains(t)
                            || declared@[i as int]@.take(k as int).contains(t),
                decreases declared@[i as int]@.len() - k,
            {
                let ghost middle = set@;
                let table = declared[i][k];
                insert_table(&mut set, table);
                proof {
                    let list = declared@[i as int]@;
                    assert(list.take(k + 1) =~= list.take(k as int).push(table));
                    assert forall|t: TableType| #[trigger]
                        set@.contains(t) <==> before.contains(t) || list.take(k + 1).contains(
                            t,
                        ) by {
                        lemma_push_contains(list.take(k as int), table, t);
                        assert(set@.contains(t) <==> middle.contains(t) || t == table);
                    }
                }
                k = k + 1;
            }
            proof {
                let list = declared@[i as int]@;
                assert(list.take(k as int) =~= list);
                assert forall|t: TableType| #[trigger]
                    set@.contains(t) <==> lists_table(declared@.take(i + 1), t) by {
                    let (a, b) = (declared@.take(i as int), declared@.take(i + 1));
                    if lists_table(a, t) {
                        let j = choose|j: int|
                            0 <= j < a.len() && (#[trigger] a[j])@.contains(t);
                        assert(b[j]@.contains(t));
                    }
                    if list.contains(t) {
                        assert(b[i as int]@.contains(t));
                    }
                    if lists_table(b, t) {
                        let j = choose|j: int|
                            0 <= j < b.len() && (#[trigger] b[j])@.contains(t);
                        if j < i {
                            assert(a[j]@.contains(t));
                        }
                    }
                    assert(before.contains(t) <==> lists_table(a, t));
                }
            }
            i = i + 1;
        }
        assert(declared@.take(i as int) =~= declared@);
        set
    }

    /// What the machine says of its tables. It uses those that its families declare: a standard one
    /// other than the zero entry and the range check, or one that belongs to a family, which then
    /// gives its content. The table of its instructions is given, and the program is read from a
    /// table.
    pub fn tables(
        declared: &Vec<Vec<TableType>>,
        family_tables: Vec<(TableType, LookupTable)>,
        decoder_table: LookupTable,
    ) -> (r: MachineTables)
        requires
            declared@.len() == Self::families().len() - 1,
            forall|t: TableType| #[trigger] lists_table(declared@, t) ==> can_be_declared(t),
            are_family_tables(family_tables@, declared@),
        ensures
            is_sorted(r.used_tables@),
            forall|t: TableType| #[trigger]
                r.used_tables@.contains(t) <==> lists_table(declared@, t) && t !is Family,
            r.extra_tables == family_tables,
            r.decoder_table == decoder_table,
            r.use_rom_for_bytecode,
            r.well_formed(),
            r.leaves_program_tables(),
    {
        let all: Vec<TableType> = Self::define_used_tables(declared);
        let mut used_tables: Vec<TableType> = Vec::new();
        let mut i: usize = 0;
        while i < all.len()
            invariant
                i <= all@.len(),
                is_sorted(all@),
                is_sorted(used_tables@),
                forall|j: int, k: int|
                    #![trigger used_tables@[j], all@[k]]
                    0 <= j < used_tables@.len() && i <= k < all@.len() ==> used_tables@[j].id()
                        < all@[k].id(),
                forall|t: TableType| #[trigger]
                    used_tables@.contains(t) <==> all@.take(i as int).contains(t) && t !is Family,
            decreases all@.len() - i,
        {
            let table = all[i];
            let ghost before = used_tables@;
            let belongs_to_family = match table {
                TableType::Family(_) => true,
                _ => false,
            };
            if !belongs_to_family {
                used_tables.push(table);
            }
            proof {
                let shorter = all@.take(i as int);
                assert(all@.take(i + 1) =~= shorter.push(table));
                assert forall|t: TableType| #[trigger]
                    used_tables@.contains(t) <==> all@.take(i + 1).contains(t) && t !is Family by {
                    lemma_push_contains(shorter, table, t);
                    lemma_push_contains(before, table, t);
                }
            }
            i = i + 1;
        }
        let r = MachineTables {
            used_tables,
            extra_tables: family_tables,
            decoder_table,
            use_rom_for_bytecode: Self::use_rom_for_bytecode(),
        };
        proof {
            assert(all@.take(i as int) =~= all@);
            assert forall|t: TableType| #[trigger] r.used_tables@.contains(t) implies
                driver::standard_content(t) is Some && t != TableType::ZeroEntry && t
                != TableType::RangeCheckSmall && t !is Family by {
                assert(all@.contains(t));
                assert(lists_table(declared@, t));
            }
            assert forall|k: int| 0 <= k < r.used_tables@.len() implies driver::standard_content(
                #[trigger] r.used_tables@[k],
            ) is Some by {
                assert(r.used_tables@.contains(r.used_tables@[k]));
            }
        }
        r
    }

    /// Opens the row that describes one cycle of the machine.
    pub fn describe_state_transition(
        cs: &mut BasicAssembly,
        splitting: [usize; 2],
        boolean_keys: DecoderOutputExtraKeysHolder,
    ) -> (r: StateTransition)
        requires
            can_describe((splitting@[0] as int, splitting@[1] as int), boolean_keys),
            old(cs).next() + 60 + splitting@[0] + splitting@[1] <= usize::MAX,
        ensures
            ({
                let start = old(cs).next();
                let parts = (splitting@[0] as int, splitting@[1] as int);
                &&& transition::is_opened(r, start, parts, boolean_keys, true)
                &&& final(cs).next() == transition::tail_start(start, parts, true) + 11
                &&& forall|w: spec_fn(Variable) -> int, t: TableContents| #[trigger]
                    final(cs).satisfied(w, t) <==> old(cs).satisfied(w, t)
                        && transition::base_demands(start, parts, true, w, t)
                        && ops::slot_is_boolean(
                        r.opt_ctx.slots()[0].carry,
                        r.opt_ctx.slots()[0].overflow,
                        w,
                    )
                &&& forall|w: spec_fn(Variable) -> int, t: TableContents, x: OutsideValues| #[trigger]
                    final(cs).computed(w, t, x) <==> old(cs).computed(w, t, x)
                        && transition::base_computes(start, parts, true, w, t, x)
                        && transition::sums_are_computed(
                        r,
                        r.flags_source.values()[flags::index_of(
                            boolean_keys.major_keys@,
                            ADD_OP_KEY,
                        )],
                        r.flags_source.values()[flags::index_of(
                            boolean_keys.major_keys@,
                            SUB_OP_KEY,
                        )],
                        w,
                    )
            }),
    {
        optimized_base_isa_state_transition(cs, splitting, boolean_keys, true)
    }
}

proof fn lemma_push_contains(list: Seq<TableType>, last: TableType, t: TableType)
    ensures
        list.push(last).contains(t) <==> list.contains(t) || t == last,
{
    let longer = list.push(last);
    if list.contains(t) {
        let k = choose|k: int| 0 <= k < list.len() && list[k] == t;
        assert(longer[k] == t);
    }
    assert(longer[list.len() as int] == last);
    if longer.contains(t) && t != last {
        let k = choose|k: int| 0 <= k < longer.len() && longer[k] == t;
        assert(list[k] == t);
    }
}

/// A circuit with its tables, and the variables that link a row to the next.
pub struct CircuitOutput {
    pub circuit: BasicAssembly,
    pub table_driver: TableDriver,
    pub state_input: Vec<Variable>,
    pub state_output: Vec<Variable>,
}

/// Whether a circuit consists of an opened row and nothing else.
pub open spec fn is_opening(
    circuit: BasicAssembly,
    row: StateTransition,
    parts: (int, int),
    keys: DecoderOutputExtraKeysHolder,
) -> bool {
    let values = row.flags_source.values();
    &&& transition::is_opened(row, 0, parts, keys, true)
    &&& circuit.next() == transition::tail_start(0, parts, true) + 11
    &&& forall|w: spec_fn(Variable) -> int, t: TableContents| #[trigger]
        circuit.satisfied(w, t) <==> transition::base_demands(0, parts, true, w, t)
            && ops::slot_is_boolean(
            row.opt_ctx.slots()[0].carry,
            row.opt_ctx.slots()[0].overflow,
            w,
        )
    &&& forall|w: spec_fn(Variable) -> int, t: TableContents, x: OutsideValues| #[trigger]
        circuit.computed(w, t, x) <==> transition::base_computes(0, parts, true, w, t, x)
            && transition::sums_are_computed(
            row,
            values[flags::index_of(keys.major_keys@, ADD_OP_KEY)],
            values[flags::index_of(keys.major_keys@, SUB_OP_KEY)],
            w,
        )
}

/// Whether a row can be closed: every family has contributed, and the state before the row and the
/// fields of the instruction are still there.
pub open spec fn can_close(circuit: BasicAssembly, row: StateTransition, opened: StateTransition) -> bool {
    &&& row.application_results@.len() == transition::NUM_FAMILIES
    &&& writeback::candidates_are_linear(row.application_results@)
    &&& row.initial_state == opened.initial_state
    &&& row.rd.is_linear()
    &&& row.decoder_output.rs2_index.is_linear()
    &&& circuit.next() + 9 <= usize::MAX
}

/// Whether `circuit` is `before` with its row closed, and `last` the state after the row.
pub open spec fn is_closed(
    circuit: BasicAssembly,
    last: MinimalStateRegistersInMemory,
    before: BasicAssembly,
    row: StateTransition,
) -> bool {
    let n = before.next();
    &&& last.pc == state_transition::register_at(n + 2)
    &&& circuit.next() == n + 9
    &&& forall|w: spec_fn(Variable) -> int, t: TableContents| #[trigger]
        circuit.satisfied(w, t) <==> before.satisfied(w, t) && transition::close_demands(n, row, w)
            && (forall|i: int|
            0 <= i < row.opt_ctx.slots().len() ==> (#[trigger] row.opt_ctx.slots()[i]).demands(w))
    &&& forall|w: spec_fn(Variable) -> int, t: TableContents, x: OutsideValues| #[trigger]
        circuit.computed(w, t, x) <==> before.computed(w, t, x) && transition::close_computes(
            n,
            row,
            w,
        )
}

/// Whether `families`, which has the other families contribute to a row, takes every opened row and
/// leaves one that can be closed.
pub open spec fn completes_rows<
    F: FnOnce(BasicAssembly, StateTransition) -> (BasicAssembly, StateTransition),
>(families: F, parts: (int, int), keys: DecoderOutputExtraKeysHolder) -> bool {
    &&& forall|circuit: BasicAssembly, row: StateTransition|
        is_opening(circuit, row, parts, keys) ==> #[trigger] families.requires((circuit, row))
    &&& forall|
        circuit: BasicAssembly,
        row: StateTransition,
        more: BasicAssembly,
        full: StateTransition,
    |
        is_opening(circuit, row, parts, keys) && #[trigger] families.ensures(
            (circuit, row),
            (more, full),
        ) ==> can_close(more, full, row)
}

/// Whether a circuit describes one row of the machine: the row is opened, `families` has the other
/// families contribute, and the row is closed. `last` is the state after the row.
pub open spec fn describes_row<
    F: FnOnce(BasicAssembly, StateTransition) -> (BasicAssembly, StateTransition),
>(
    circuit: BasicAssembly,
    last: MinimalStateRegistersInMemory,
    families: F,
    parts: (int, int),
    keys: DecoderOutputExtraKeysHolder,
) -> bool {
    exists|
        opening: BasicAssembly,
        row: StateTransition,
        more: BasicAssembly,
        full: StateTransition,
    |
        is_opening(opening, row, parts, keys) && #[trigger] families.ensures(
            (opening, row),
            (more, full),
        ) && is_closed(circuit, last, more, full)
}

/// Describes one row of the machine in a circuit of its own. The families beside addition and
/// subtraction contribute through `families`.
fn describe_row<F: FnOnce(BasicAssembly, StateTransition) -> (BasicAssembly, StateTransition)>(
    splitting: [usize; 2],
    boolean_keys: DecoderOutputExtraKeysHolder,
    families: F,
) -> (r: (BasicAssembly, MinimalStateRegistersInMemory, MinimalStateRegistersInMemory))
    requires
        can_describe((splitting@[0] as int, splitting@[1] as int), boolean_keys),
        completes_rows(families, (splitting@[0] as int, splitting@[1] as int), boolean_keys),
    ensures
        describes_row(
            r.0,
            r.2,
            families,
            (splitting@[0] as int, splitting@[1] as int),
            boolean_keys,
        ),
        r.1.pc == state_transition::register_at(0),
{
    let ghost parts = (splitting@[0] as int, splitting@[1] as int);
    let mut cs = BasicAssembly::new();
    let row = FullIsaMachineWithDelegationNoExceptionHandling::describe_state_transition(
        &mut cs,
        splitting,
        boolean_keys,
    );
    let ghost opening = cs;
    let ghost opened = row;
    assert(is_opening(opening, opened, parts, boolean_keys));
    assert(families.requires((opening, opened)));
    let (more, full) = families(cs, row);
    let mut cs = more;
    let ghost before = cs;
    let ghost complete = full;
    assert(families.ensures((opening, opened), (before, complete)));
    let (initial, last, _) = full.finish(&mut cs);
    assert(is_closed(cs, last, before, complete));
    (cs, initial, last)
}

/// Compiles the machine: its tables, and the circuit that describes one of its rows. The state after
/// a row is the state before the next one.
pub fn compile_machine<
    const ROM_ADDRESS_SPACE_SECOND_WORD_BITS: usize,
    F: FnOnce(BasicAssembly, StateTransition) -> (BasicAssembly, StateTransition),
>(
    machine: MachineTables,
    splitting: [usize; 2],
    boolean_keys: DecoderOutputExtraKeysHolder,
    families: F,
) -> (r: CircuitOutput)
    requires
        ROM_ADDRESS_SPACE_SECOND_WORD_BITS <= 16,
        machine.well_formed(),
        can_describe((splitting@[0] as int, splitting@[1] as int), boolean_keys),
        completes_rows(families, (splitting@[0] as int, splitting@[1] as int), boolean_keys),
    ensures
        r.table_driver@ == driver::machine_tables(
            machine,
            ROM_ADDRESS_SPACE_SECOND_WORD_BITS as int,
        ),
        r.state_input@ == seq![Variable(0), Variable(1)],
        exists|last: MinimalStateRegistersInMemory| #[trigger]
            describes_row(
                r.circuit,
                last,
                families,
                (splitting@[0] as int, splitting@[1] as int),
                boolean_keys,
            ) && r.state_output@ == seq![last.pc.low, last.pc.high],
{
    let table_driver = create_table_driver::<ROM_ADDRESS_SPACE_SECOND_WORD_BITS>(machine);
    let (circuit, initial, last) = describe_row(splitting, boolean_keys, families);
    let mut state_input: Vec<Variable> = Vec::new();
    initial.append_into_variables_set(&mut state_input);
    let mut state_output: Vec<Variable> = Vec::new();
    last.append_into_variables_set(&mut state_output);
    assert(state_input@ =~= seq![Variable(0), Variable(1)]);
    assert(state_output@ =~= seq![last.pc.low, last.pc.high]);
    let r = CircuitOutput { circuit, table_driver, state_input, state_output };
    assert(describes_row(
        r.circuit,
        last,
        families,
        (splitting@[0] as int, splitting@[1] as int),
        boolean_keys,
    ));
    r
}

/// How the variables of a row of the machine are computed, in the order in which the rules were
/// given.
pub fn dump_wintess_graph<
    F: FnOnce(BasicAssembly, StateTransition) -> (BasicAssembly, StateTransition),
>(
    splitting: [usize; 2],
    boolean_keys: DecoderOutputExtraKeysHolder,
    families: F,
) -> (r: Vec<WitnessRule>)
    requires
        can_describe((splitting@[0] as int, splitting@[1] as int), boolean_keys),
        completes_rows(families, (splitting@[0] as int, splitting@[1] as int), boolean_keys),
    ensures
        exists|circuit: BasicAssembly, last: MinimalStateRegistersInMemory| #[trigger]
            describes_row(
                circuit,
                last,
                families,
                (splitting@[0] as int, splitting@[1] as int),
                boolean_keys,
            ) && r@ == circuit.rules(),
{
    let (circuit, _, _) = describe_row(splitting, boolean_keys, families);
    circuit.into_rules()
}

/// The families of the machine contribute to a row in the order in which the machine lists them, and
/// each of them once.
pub proof fn law_families_in_their_order(i: int, j: int)
    requires
        0 <= i < 13,
        0 <= j < 13,
    ensures
        ({
            let families = FullIsaMachineWithDelegationNoExceptionHandling::families();
            &&& families.len() == transition::family_order().len() == 13
            &&& families[i].key() == transition::family_order()[i]
            &&& families[i].key() == families[j].key() ==> i == j
        }),
        transition::family_order()[0] == ADD_OP_KEY,
        transition::family_order()[1] == SUB_OP_KEY,
        transition::family_order()[transition::LOAD_FAMILY as int]
            == DecoderMajorInstructionFamilyKey::Load,
        transition::family_order()[transition::STORE_FAMILY as int]
            == DecoderMajorInstructionFamilyKey::Store,
{
}

/// What the families of the machine support: signed and unsigned multiplication, division and
/// comparison, arithmetic shifts and no rotations, loads and stores of less than a word, and of the
/// CSR instructions only the exchange.
pub proof fn law_families_of_the_machine(f: OpcodeFamily)
    requires
        FullIsaMachineWithDelegationNoExceptionHandling::families().contains(f),
    ensures
        match f {
            OpcodeFamily::MulOp { support_signed } => support_signed,
            OpcodeFamily::DivRemOp { support_signed } => support_signed,
            OpcodeFamily::ConditionalOp { support_signed } => support_signed,
            OpcodeFamily::ShiftOp { support_sra, support_rot } => support_sra && !support_rot,
            OpcodeFamily::LoadOp { support_signed, support_less_than_word } => support_signed
                && support_less_than_word,
            OpcodeFamily::StoreOp { support_less_than_word } => support_less_than_word,
            OpcodeFamily::CsrOp { support_csrrc, support_csrrs, support_csr_immediates } =>
                !support_csrrc && !support_csrrs && !support_csr_immediates,
            _ => true,
        },
{
}

/// A sorted list names no table twice, and lists them by their numbers.
pub proof fn law_sorted_tables(tables: Seq<TableType>, i: int, j: int)
    requires
        is_sorted(tables),
        0 <= i < tables.len(),
        0 <= j < tables.len(),
    ensures
        i < j <==> tables[i].id() < tables[j].id(),
        tables[i] == tables[j] ==> i == j,
{
    if i > j {
        assert(tables[j].id() < tables[i].id());
    }
}

} // verus!
