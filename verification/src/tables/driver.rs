//! The set of tables of a machine.
use crate::circuit::assembly::{TableContents, TableType};
use crate::circuit::decoder_laws;
use crate::tables::csr::create_csr_table_for_delegation;
use crate::tables::lookup;
use crate::tables::lookup::{LookupTable, TableContent, ORACLE_CSR};
use crate::tables::rom::create_table_for_rom_image;
use vstd::prelude::*;

verus! {

/// The content of a table that its type alone determines.
pub open spec fn standard_content(table: TableType) -> Option<TableContent> {
    match table {
        TableType::ZeroEntry => Some(TableContent::Zero),
        TableType::RangeCheckSmall => Some(TableContent::SmallRange),
        TableType::And => Some(TableContent::And),
        TableType::Or => Some(TableContent::Or),
        TableType::Xor => Some(TableContent::Xor),
        TableType::QuickDecodeDecompositionCheck4x4x4 => Some(TableContent::FourFourFour),
        TableType::QuickDecodeDecompositionCheck7x3x6 => Some(TableContent::SevenThreeSix),
        TableType::U16GetSignAndHighByte => Some(TableContent::SignAndHighByte),
        _ => None,
    }
}

/// Generates a table that its type alone determines.
pub fn generate_table(table: TableType) -> (r: Option<LookupTable>)
    ensures
        r is Some <==> standard_content(table) is Some,
        r is Some ==> r->0 == (LookupTable {
            content: standard_content(table)->0,
            id: table.id(),
        }),
{
    let content = match table {
        TableType::ZeroEntry => TableContent::Zero,
        TableType::RangeCheckSmall => TableContent::SmallRange,
        TableType::And => TableContent::And,
        TableType::Or => TableContent::Or,
        TableType::Xor => TableContent::Xor,
        TableType::QuickDecodeDecompositionCheck4x4x4 => TableContent::FourFourFour,
        TableType::QuickDecodeDecompositionCheck7x3x6 => TableContent::SevenThreeSix,
        TableType::U16GetSignAndHighByte => TableContent::SignAndHighByte,
        _ => {
            return None;
        },
    };
    Some(LookupTable { content, id: table.to_table_id() })
}

/// Whether a list of tables has one of a type.
pub open spec fn lists(tables: Seq<(TableType, LookupTable)>, table: TableType) -> bool {
    exists|i: int| 0 <= i < tables.len() && (#[trigger] tables[i]).0 == table
}

/// The list with a standard table, unless it is already there.
pub open spec fn with_standard(
    tables: Seq<(TableType, LookupTable)>,
    table: TableType,
) -> Seq<(TableType, LookupTable)> {
    if lists(tables, table) {
        tables
    } else {
        tables.push(
            (table, LookupTable { content: standard_content(table)->0, id: table.id() }),
        )
    }
}

/// The list with several standard tables, one after the other.
pub open spec fn with_all_standard(
    tables: Seq<(TableType, LookupTable)>,
    more: Seq<TableType>,
) -> Seq<(TableType, LookupTable)>
    decreases more.len(),
{
    if more.len() == 0 {
        tables
    } else {
        with_standard(with_all_standard(tables, more.drop_last()), more.last())
    }
}

/// The tables of a machine.
pub struct TableDriver {
    tables: Vec<(TableType, LookupTable)>,
}

impl TableDriver {
    pub closed spec fn view(&self) -> Seq<(TableType, LookupTable)> {
        self.tables@
    }

    /// What the tables hold, for a circuit to look up.
    pub open spec fn contents(&self) -> TableContents {
        TableContents {
            rows: |table: TableType, a: int, b: int, c: int|
                exists|i: int|
                    0 <= i < self@.len() && (#[trigger] self@[i]).0 == table
                        && self@[i].1.content.holds(a, b, c),
        }
    }

    pub fn new() -> (r: Self)
        ensures
            r@.len() == 0,
    {
        TableDriver { tables: Vec::new() }
    }

    pub fn num_tables(&self) -> (r: usize)
        ensures
            r == self@.len(),
    {
        self.tables.len()
    }

    /// The table of a type.
    pub fn get_table(&self, table: TableType) -> (r: Option<&LookupTable>)
        ensures
            r is Some <==> lists(self@, table),
            r is Some ==> exists|i: int|
                0 <= i < self@.len() && (#[trigger] self@[i]).0 == table && self@[i].1 == *r->0,
    {
        let mut i: usize = 0;
        while i < self.tables.len()
            invariant
                i <= self.tables@.len(),
                forall|j: int| 0 <= j < i ==> (#[trigger] self@[j]).0 != table,
            decreases self.tables@.len() - i,
        {
            assert(self@[i as int] == self.tables@[i as int]);
            if self.tables[i].0 == table {
                return Some(&self.tables[i].1);
            }
            i = i + 1;
        }
        None
    }

    /// Adds a standard table, unless it is already there.
    pub fn materialize_table(&mut self, table: TableType)
        requires
            standard_content(table) is Some,
        ensures
            final(self)@ == with_standard(old(self)@, table),
    {
        let present = self.get_table(table).is_some();
        if !present {
            match generate_table(table) {
                Some(content) => {
                    self.tables.push((table, content));
                },
                None => {},
            }
        }
    }

    /// Adds a table with a given content.
    pub fn add_table_with_content(&mut self, table: TableType, content: LookupTable)
        requires
            !lists(old(self)@, table),
        ensures
            final(self)@ == old(self)@.push((table, content)),
    {
        self.tables.push((table, content));
    }
}

/// What a machine says of its tables.
pub struct MachineTables {
    /// The standard tables that its families use.
    pub used_tables: Vec<TableType>,
    /// The tables that it brings along.
    pub extra_tables: Vec<(TableType, LookupTable)>,
    /// The table of its instructions.
    pub decoder_table: LookupTable,
    /// Whether instructions are read from a table.
    pub use_rom_for_bytecode: bool,
}

impl MachineTables {
    /// A machine leaves the tables that every machine has to the driver, brings none along twice,
    /// and none that it already uses.
    pub open spec fn well_formed(&self) -> bool {
        &&& !self.used_tables@.contains(TableType::ZeroEntry)
        &&& !self.used_tables@.contains(TableType::OpTypeBitmask)
        &&& !self.used_tables@.contains(TableType::CsrBitmask)
        &&& !self.used_tables@.contains(TableType::RangeCheckSmall)
        &&& forall|i: int|
            0 <= i < self.used_tables@.len() ==> standard_content(
                #[trigger] self.used_tables@[i],
            ) is Some
        &&& forall|i: int|
            0 <= i < self.extra_tables@.len() ==> {
                let table = (#[trigger] self.extra_tables@[i]).0;
                &&& !self.used_tables@.contains(table)
                &&& table != TableType::OpTypeBitmask
                &&& self.use_rom_for_bytecode ==> table != TableType::RomAddressSpaceSeparator
            }
        &&& forall|i: int, j: int|
            0 <= i < j < self.extra_tables@.len() ==> (#[trigger] self.extra_tables@[i]).0 != (
            #[trigger] self.extra_tables@[j]).0
    }

    /// A machine that is set up for a program leaves the tables of that program to the driver too.
    pub open spec fn leaves_program_tables(&self) -> bool {
        forall|i: int|
            0 <= i < self.extra_tables@.len() ==> (#[trigger] self.extra_tables@[i]).0
                != TableType::RomRead && self.extra_tables@[i].0 != TableType::SpecialCSRProperties
    }
}

/// The tables that every machine has, beside its own.
pub open spec fn common_tables() -> Seq<TableType> {
    seq![
        TableType::And,
        TableType::ZeroEntry,
        TableType::QuickDecodeDecompositionCheck4x4x4,
        TableType::QuickDecodeDecompositionCheck7x3x6,
        TableType::U16GetSignAndHighByte,
        TableType::RangeCheckSmall,
    ]
}

/// The tables of a machine: those it uses, those it brings along, the common ones, the table of
/// its instructions, and the one that tells program memory from the rest.
pub open spec fn machine_tables(machine: MachineTables, bits: int) -> Seq<(TableType, LookupTable)> {
    let used = with_all_standard(seq![], machine.used_tables@);
    let common = with_all_standard(used + machine.extra_tables@, common_tables());
    let decoded = common.push((TableType::OpTypeBitmask, machine.decoder_table));
    if machine.use_rom_for_bytecode {
        decoded.push(
            (
                TableType::RomAddressSpaceSeparator,
                LookupTable {
                    content: TableContent::AddressSeparator(bits as u32),
                    id: TableType::RomAddressSpaceSeparator.id(),
                },
            ),
        )
    } else {
        decoded
    }
}

proof fn lemma_with_standard_lists(
    tables: Seq<(TableType, LookupTable)>,
    table: TableType,
    other: TableType,
)
    ensures
        lists(with_standard(tables, table), other) <==> lists(tables, other) || table == other,
{
    let after = with_standard(tables, table);
    if lists(tables, other) {
        let i = choose|i: int| 0 <= i < tables.len() && (#[trigger] tables[i]).0 == other;
        assert(after[i].0 == other);
    }
    if !lists(tables, table) {
        assert(after[tables.len() as int].0 == table);
        if lists(after, other) && table != other {
            let i = choose|i: int| 0 <= i < after.len() && (#[trigger] after[i]).0 == other;
            assert(tables[i].0 == other);
        }
    }
}

proof fn lemma_with_all_standard_lists(
    tables: Seq<(TableType, LookupTable)>,
    more: Seq<TableType>,
    other: TableType,
)
    ensures
        lists(with_all_standard(tables, more), other) <==> lists(tables, other) || more.contains(other),
    decreases more.len(),
{
    if more.len() > 0 {
        let shorter = more.drop_last();
        lemma_with_all_standard_lists(tables, shorter, other);
        lemma_with_standard_lists(with_all_standard(tables, shorter), more.last(), other);
        if more.contains(other) && more.last() != other {
            let i = choose|i: int| 0 <= i < more.len() && more[i] == other;
            assert(shorter[i] == other);
            assert(shorter.contains(other));
        }
        if shorter.contains(other) {
            let i = choose|i: int| 0 <= i < shorter.len() && shorter[i] == other;
            assert(more[i] == other);
        }
        assert(more[more.len() - 1] == more.last());
    }
}

proof fn lemma_lists_concat(
    a: Seq<(TableType, LookupTable)>,
    b: Seq<(TableType, LookupTable)>,
    table: TableType,
)
    ensures
        lists(a + b, table) <==> lists(a, table) || lists(b, table),
{
    if lists(a, table) {
        let i = choose|i: int| 0 <= i < a.len() && (#[trigger] a[i]).0 == table;
        assert((a + b)[i].0 == table);
    }
    if lists(b, table) {
        let i = choose|i: int| 0 <= i < b.len() && (#[trigger] b[i]).0 == table;
        assert((a + b)[a.len() + i].0 == table);
    }
    if lists(a + b, table) {
        let i = choose|i: int| 0 <= i < (a + b).len() && (#[trigger] (a + b)[i]).0 == table;
        if i < a.len() {
            assert(a[i].0 == table);
        } else {
            assert(b[i - a.len()].0 == table);
        }
    }
}

/// Adds standard tables, one after the other.
fn materialize_all(table_driver: &mut TableDriver, tables: &Vec<TableType>)
    requires
        forall|i: int|
            0 <= i < tables@.len() ==> standard_content(#[trigger] tables@[i]) is Some,
    ensures
        final(table_driver)@ == with_all_standard(old(table_driver)@, tables@),
{
    let mut i: usize = 0;
    while i < tables.len()
        invariant
            i <= tables@.len(),
            forall|k: int|
                0 <= k < tables@.len() ==> standard_content(#[trigger] tables@[k]) is Some,
            table_driver@ == with_all_standard(old(table_driver)@, tables@.take(i as int)),
        decreases tables@.len() - i,
    {
        assert(standard_content(tables@[i as int]) is Some);
        table_driver.materialize_table(tables[i]);
        assert(tables@.take(i + 1).drop_last() =~= tables@.take(i as int));
        i = i + 1;
    }
    assert(tables@.take(i as int) =~= tables@);
}

/// The tables that every machine has, beside its own.
fn list_common_tables() -> (r: Vec<TableType>)
    ensures
        r@ == common_tables(),
{
    let tables = vec![
        TableType::And,
        TableType::ZeroEntry,
        TableType::QuickDecodeDecompositionCheck4x4x4,
        TableType::QuickDecodeDecompositionCheck7x3x6,
        TableType::U16GetSignAndHighByte,
        TableType::RangeCheckSmall,
    ];
    assert(tables@ =~= common_tables());
    tables
}

/// Adds tables with their contents, one after the other.
fn add_all(table_driver: &mut TableDriver, tables: Vec<(TableType, LookupTable)>)
    requires
        forall|i: int|
            0 <= i < tables@.len() ==> !lists(old(table_driver)@, (#[trigger] tables@[i]).0),
        forall|i: int, j: int|
            0 <= i < j < tables@.len() ==> (#[trigger] tables@[i]).0 != (#[trigger] tables@[j]).0,
    ensures
        final(table_driver)@ == old(table_driver)@ + tables@,
{
    let ghost all = tables@;
    let mut rest = tables;
    let mut reversed: Vec<(TableType, LookupTable)> = Vec::new();
    while rest.len() > 0
        invariant
            rest@.len() + reversed@.len() == all.len(),
            rest@ == all.take(rest@.len() as int),
            forall|k: int|
                0 <= k < reversed@.len() ==> #[trigger] reversed@[k] == all[all.len() - 1 - k],
        decreases rest@.len(),
    {
        let last = rest.pop().unwrap();
        reversed.push(last);
    }
    let ghost mut done: int = 0;
    while reversed.len() > 0
        invariant
            done + reversed@.len() == all.len(),
            done >= 0,
            forall|i: int|
                0 <= i < all.len() ==> !lists(old(table_driver)@, (#[trigger] all[i]).0),
            forall|i: int, j: int|
                0 <= i < j < all.len() ==> (#[trigger] all[i]).0 != (#[trigger] all[j]).0,
            forall|k: int|
                0 <= k < reversed@.len() ==> #[trigger] reversed@[k] == all[all.len() - 1 - k],
            table_driver@ == old(table_driver)@ + all.take(done),
        decreases reversed@.len(),
    {
        let (table, content) = reversed.pop().unwrap();
        proof {
            assert(all[done] == (table, content));
            lemma_lists_concat(old(table_driver)@, all.take(done), table);
            if lists(all.take(done), table) {
                let k = choose|k: int| 0 <= k < done && (#[trigger] all.take(done)[k]).0 == table;
                assert(all[k].0 == all[done].0);
                assert(false);
            }
        }
        table_driver.add_table_with_content(table, content);
        proof {
            assert(table_driver@ =~= old(table_driver)@ + all.take(done + 1));
            done = done + 1;
        }
    }
    assert(all.take(done) =~= all);
}

/// A table that a machine neither uses nor brings along is not among its own or the common ones.
proof fn lemma_still_absent(machine: MachineTables, table: TableType)
    requires
        machine.well_formed(),
        table == TableType::OpTypeBitmask || (table == TableType::RomAddressSpaceSeparator
            && machine.use_rom_for_bytecode),
    ensures
        ({
            let used = with_all_standard(seq![], machine.used_tables@);
            !lists(with_all_standard(used + machine.extra_tables@, common_tables()), table)
        }),
{
    let used = with_all_standard(seq![], machine.used_tables@);
    lemma_with_all_standard_lists(used + machine.extra_tables@, common_tables(), table);
    lemma_lists_concat(used, machine.extra_tables@, table);
    lemma_with_all_standard_lists(seq![], machine.used_tables@, table);
    lemma_absent(machine, table);
}

/// Puts the tables of a machine into an empty set of tables, such as that of a circuit under
/// construction.
pub fn create_table_driver_into_cs<const ROM_ADDRESS_SPACE_SECOND_WORD_BITS: usize>(
    table_driver: &mut TableDriver,
    machine: MachineTables,
)
    requires
        ROM_ADDRESS_SPACE_SECOND_WORD_BITS <= 16,
        machine.well_formed(),
        old(table_driver)@.len() == 0,
    ensures
        final(table_driver)@ == machine_tables(machine, ROM_ADDRESS_SPACE_SECOND_WORD_BITS as int),
{
    proof {
        lemma_still_absent(machine, TableType::OpTypeBitmask);
        if machine.use_rom_for_bytecode {
            lemma_still_absent(machine, TableType::RomAddressSpaceSeparator);
        }
        assert(table_driver@ =~= seq![]);
        assert forall|i: int| 0 <= i < machine.extra_tables@.len() implies !lists(
            with_all_standard(seq![], machine.used_tables@),
            (#[trigger] machine.extra_tables@[i]).0,
        ) by {
            lemma_with_all_standard_lists(
                seq![],
                machine.used_tables@,
                machine.extra_tables@[i].0,
            );
        }
    }
    materialize_all(table_driver, &machine.used_tables);
    add_all(table_driver, machine.extra_tables);
    let common = list_common_tables();
    materialize_all(table_driver, &common);
    let ghost before_decoder = table_driver@;
    table_driver.add_table_with_content(TableType::OpTypeBitmask, machine.decoder_table);
    if machine.use_rom_for_bytecode {
        proof {
            if lists(table_driver@, TableType::RomAddressSpaceSeparator) {
                let k = choose|k: int|
                    0 <= k < table_driver@.len() && (#[trigger] table_driver@[k]).0
                        == TableType::RomAddressSpaceSeparator;
                assert(before_decoder[k].0 == TableType::RomAddressSpaceSeparator);
            }
        }
        let separator = LookupTable {
            content: TableContent::AddressSeparator(ROM_ADDRESS_SPACE_SECOND_WORD_BITS as u32),
            id: TableType::RomAddressSpaceSeparator.to_table_id(),
        };
        table_driver.add_table_with_content(TableType::RomAddressSpaceSeparator, separator);
    }
}

proof fn lemma_absent(machine: MachineTables, table: TableType)
    requires
        machine.well_formed(),
        table == TableType::OpTypeBitmask || (table == TableType::RomAddressSpaceSeparator
            && machine.use_rom_for_bytecode) || ((table == TableType::RomRead || table
            == TableType::SpecialCSRProperties) && machine.leaves_program_tables()),
    ensures
        !machine.used_tables@.contains(table),
        !lists(machine.extra_tables@, table),
{
    if machine.used_tables@.contains(table) {
        let i = choose|i: int|
            0 <= i < machine.used_tables@.len() && machine.used_tables@[i] == table;
        assert(standard_content(machine.used_tables@[i]) is Some);
    }
    if lists(machine.extra_tables@, table) {
        let i = choose|i: int|
            0 <= i < machine.extra_tables@.len() && (#[trigger] machine.extra_tables@[i]).0
                == table;
        assert(machine.extra_tables@[i].0 == table);
    }
}

/// The tables of a machine on their own, for setup and proving.
pub fn create_table_driver<const ROM_ADDRESS_SPACE_SECOND_WORD_BITS: usize>(
    machine: MachineTables,
) -> (r: TableDriver)
    requires
        ROM_ADDRESS_SPACE_SECOND_WORD_BITS <= 16,
        machine.well_formed(),
    ensures
        r@ == machine_tables(machine, ROM_ADDRESS_SPACE_SECOND_WORD_BITS as int),
{
    let mut table_driver = TableDriver::new();
    create_table_driver_into_cs::<ROM_ADDRESS_SPACE_SECOND_WORD_BITS>(&mut table_driver, machine);
    table_driver
}

/// Tables that their type determines have the content that it determines.
pub open spec fn is_faithful(tables: Seq<(TableType, LookupTable)>) -> bool {
    forall|i: int|
        0 <= i < tables.len() && standard_content((#[trigger] tables[i]).0) is Some
            ==> tables[i].1.content == standard_content(tables[i].0)->0
}

proof fn lemma_with_all_standard_is_faithful(
    tables: Seq<(TableType, LookupTable)>,
    more: Seq<TableType>,
)
    requires
        is_faithful(tables),
    ensures
        is_faithful(with_all_standard(tables, more)),
    decreases more.len(),
{
    if more.len() > 0 {
        let before = with_all_standard(tables, more.drop_last());
        lemma_with_all_standard_is_faithful(tables, more.drop_last());
        let after = with_all_standard(tables, more);
        assert forall|i: int|
            0 <= i < after.len() && standard_content((#[trigger] after[i]).0) is Some implies
            after[i].1.content == standard_content(after[i].0)->0 by {
            if i < before.len() {
                assert(after[i] == before[i]);
            }
        }
    }
}

/// The tables of a machine are faithful if those that it brings along are. The checks of widths are
/// among them, and the tables of a program are not.
proof fn lemma_machine_tables(machine: MachineTables, bits: int)
    requires
        machine.well_formed(),
    ensures
        is_faithful(machine.extra_tables@) ==> is_faithful(machine_tables(machine, bits)),
        lists(
            machine_tables(machine, bits),
            TableType::QuickDecodeDecompositionCheck4x4x4,
        ),
        lists(
            machine_tables(machine, bits),
            TableType::QuickDecodeDecompositionCheck7x3x6,
        ),
        machine.leaves_program_tables() ==> !lists(
            machine_tables(machine, bits),
            TableType::RomRead,
        ),
        machine.leaves_program_tables() ==> !lists(
            machine_tables(machine, bits),
            TableType::SpecialCSRProperties,
        ),
{
    let empty = Seq::<(TableType, LookupTable)>::empty();
    let used = with_all_standard(empty, machine.used_tables@);
    lemma_with_all_standard_is_faithful(empty, machine.used_tables@);
    let own = used + machine.extra_tables@;
    if is_faithful(machine.extra_tables@) {
        assert forall|i: int|
            0 <= i < own.len() && standard_content((#[trigger] own[i]).0) is Some implies
            own[i].1.content == standard_content(own[i].0)->0 by {
            if i < used.len() {
                assert(own[i] == used[i]);
            } else {
                assert(own[i] == machine.extra_tables@[i - used.len()]);
            }
        }
        lemma_with_all_standard_is_faithful(own, common_tables());
    }
    let common = with_all_standard(own, common_tables());
    let all = machine_tables(machine, bits);
    let tail = all.skip(common.len() as int);
    assert(all =~= common + tail);
    let c = common_tables();
    assert(c[2] == TableType::QuickDecodeDecompositionCheck4x4x4);
    assert(c[3] == TableType::QuickDecodeDecompositionCheck7x3x6);
    assert(c.contains(TableType::QuickDecodeDecompositionCheck4x4x4));
    assert(c.contains(TableType::QuickDecodeDecompositionCheck7x3x6));
    lemma_one_listed(machine, own, common, tail, TableType::QuickDecodeDecompositionCheck4x4x4);
    lemma_one_listed(machine, own, common, tail, TableType::QuickDecodeDecompositionCheck7x3x6);
    lemma_one_listed(machine, own, common, tail, TableType::RomRead);
    lemma_one_listed(machine, own, common, tail, TableType::SpecialCSRProperties);
    lemma_lists_concat(used, machine.extra_tables@, TableType::RomRead);
    lemma_lists_concat(used, machine.extra_tables@, TableType::SpecialCSRProperties);
    lemma_with_all_standard_lists(empty, machine.used_tables@, TableType::RomRead);
    lemma_with_all_standard_lists(empty, machine.used_tables@, TableType::SpecialCSRProperties);
    if machine.leaves_program_tables() {
        lemma_absent(machine, TableType::RomRead);
        lemma_absent(machine, TableType::SpecialCSRProperties);
    }
    if is_faithful(machine.extra_tables@) {
        assert forall|i: int|
            0 <= i < all.len() && standard_content((#[trigger] all[i]).0) is Some implies
            all[i].1.content == standard_content(all[i].0)->0 by {
            if i < common.len() {
                assert(all[i] == common[i]);
            }
        }
    }
}

proof fn lemma_one_listed(
    machine: MachineTables,
    own: Seq<(TableType, LookupTable)>,
    common: Seq<(TableType, LookupTable)>,
    tail: Seq<(TableType, LookupTable)>,
    table: TableType,
)
    requires
        common == with_all_standard(own, common_tables()),
        forall|i: int|
            0 <= i < tail.len() ==> (#[trigger] tail[i]).0 == TableType::OpTypeBitmask || tail[i].0
                == TableType::RomAddressSpaceSeparator,
        table != TableType::OpTypeBitmask,
        table != TableType::RomAddressSpaceSeparator,
    ensures
        lists(common + tail, table) <==> lists(own, table) || common_tables().contains(table),
{
    lemma_lists_concat(common, tail, table);
    lemma_with_all_standard_lists(own, common_tables(), table);
}

/// The tables of a machine are those that it uses, those that it brings along, the common ones, that
/// of its instructions, and the one that tells program memory from the rest if it has one; and no
/// others.
pub proof fn law_machine_has_its_tables(machine: MachineTables, bits: int, table: TableType)
    ensures
        lists(machine_tables(machine, bits), table) <==> {
            ||| machine.used_tables@.contains(table)
            ||| lists(machine.extra_tables@, table)
            ||| common_tables().contains(table)
            ||| table == TableType::OpTypeBitmask
            ||| table == TableType::RomAddressSpaceSeparator && machine.use_rom_for_bytecode
        },
{
    let empty = Seq::<(TableType, LookupTable)>::empty();
    let used = with_all_standard(empty, machine.used_tables@);
    let own = used + machine.extra_tables@;
    let common = with_all_standard(own, common_tables());
    let all = machine_tables(machine, bits);
    let tail = all.skip(common.len() as int);
    assert(all =~= common + tail);
    lemma_lists_concat(common, tail, table);
    lemma_with_all_standard_lists(own, common_tables(), table);
    lemma_lists_concat(used, machine.extra_tables@, table);
    lemma_with_all_standard_lists(empty, machine.used_tables@, table);
    assert(tail[0].0 == TableType::OpTypeBitmask);
    if machine.use_rom_for_bytecode {
        assert(tail.len() == 2 && tail[1].0 == TableType::RomAddressSpaceSeparator);
    } else {
        assert(tail.len() == 1);
    }
}

/// Whatever tables a machine brings along, as long as none of them has the type of a standard table
/// and another content, the checks of chunk widths that its decoder relies on hold what they should.
pub proof fn law_machine_has_width_tables(driver: TableDriver, machine: MachineTables, bits: int)
    requires
        machine.well_formed(),
        is_faithful(machine.extra_tables@),
        driver@ == machine_tables(machine, bits),
    ensures
        decoder_laws::has_width_tables(driver.contents()),
{
    lemma_machine_tables(machine, bits);
    lemma_faithful_width_tables(driver);
}

proof fn lemma_faithful_width_tables(driver: TableDriver)
    requires
        is_faithful(driver@),
        lists(driver@, TableType::QuickDecodeDecompositionCheck4x4x4),
        lists(driver@, TableType::QuickDecodeDecompositionCheck7x3x6),
    ensures
        decoder_laws::has_width_tables(driver.contents()),
{
    let t = driver.contents();
    let all = driver@;
    let first = TableType::QuickDecodeDecompositionCheck4x4x4;
    let second = TableType::QuickDecodeDecompositionCheck7x3x6;
    let i = choose|i: int| 0 <= i < all.len() && (#[trigger] all[i]).0 == first;
    let k = choose|k: int| 0 <= k < all.len() && (#[trigger] all[k]).0 == second;
    assert forall|a: int, b: int, c: int| #[trigger]
        t.holds(first, a, b, c) <==> (0 <= a < 0x10 && 0 <= b < 0x10 && 0 <= c < 0x10) by {
        lookup::law_width_tables(a, b, c);
        assert(all[i].1.content == TableContent::FourFourFour);
    }
    assert forall|a: int, b: int, c: int| #[trigger]
        t.holds(second, a, b, c) <==> (0 <= a < 0x80 && 0 <= b < 0x8 && 0 <= c < 0x40) by {
        lookup::law_width_tables(a, b, c);
        assert(all[k].1.content == TableContent::SevenThreeSix);
    }
}

/// The tables for proving one program: those of the machine, the program itself, and the CSRs that
/// it may use.
pub fn create_program_tables<const ROM_ADDRESS_SPACE_SECOND_WORD_BITS: usize>(
    machine: MachineTables,
    bytecode: &[u32],
    delegation_csrs: &[u32],
) -> (r: TableDriver)
    requires
        0 < ROM_ADDRESS_SPACE_SECOND_WORD_BITS <= 16,
        machine.well_formed(),
        machine.leaves_program_tables(),
        bytecode@.len() == lookup::power_of_two(16 + ROM_ADDRESS_SPACE_SECOND_WORD_BITS) / 4,
        forall|i: int|
            0 <= i < delegation_csrs@.len() ==> #[trigger] delegation_csrs@[i] < 0x1000,
        !delegation_csrs@.contains(ORACLE_CSR),
    ensures
        ({
            let common = machine_tables(machine, ROM_ADDRESS_SPACE_SECOND_WORD_BITS as int);
            let n = common.len() as int;
            &&& r@.len() == n + 2
            &&& r@.take(n) == common
            &&& r@[n].0 == TableType::RomRead
            &&& r@[n].1.id == TableType::RomRead.id()
            &&& r@[n].1.content is Program
            &&& r@[n].1.content->Program_0@ == bytecode@
            &&& r@[n].1.content->Program_1 == ROM_ADDRESS_SPACE_SECOND_WORD_BITS
            &&& r@[n + 1].0 == TableType::SpecialCSRProperties
            &&& r@[n + 1].1.id == TableType::SpecialCSRProperties.id()
            &&& r@[n + 1].1.content is CsrProperties
            &&& r@[n + 1].1.content->CsrProperties_0
            &&& r@[n + 1].1.content->CsrProperties_1@ == delegation_csrs@
        }),
{
    proof {
        lemma_machine_tables(machine, ROM_ADDRESS_SPACE_SECOND_WORD_BITS as int);
    }
    let mut table_driver = create_table_driver::<ROM_ADDRESS_SPACE_SECOND_WORD_BITS>(machine);
    let ghost common = table_driver@;
    let rom_table = create_table_for_rom_image::<ROM_ADDRESS_SPACE_SECOND_WORD_BITS>(
        bytecode,
        TableType::RomRead.to_table_id(),
    );
    table_driver.add_table_with_content(TableType::RomRead, rom_table);
    let csr_table = create_csr_table_for_delegation(
        true,
        delegation_csrs,
        TableType::SpecialCSRProperties.to_table_id(),
    );
    proof {
        if lists(table_driver@, TableType::SpecialCSRProperties) {
            let k = choose|k: int|
                0 <= k < table_driver@.len() && (#[trigger] table_driver@[k]).0
                    == TableType::SpecialCSRProperties;
            assert(common[k].0 == TableType::SpecialCSRProperties);
        }
    }
    table_driver.add_table_with_content(TableType::SpecialCSRProperties, csr_table);
    assert(table_driver@.take(common.len() as int) =~= common);
    table_driver
}

/// Each standard table holds what its type says, and no other type has a standard table.
pub proof fn law_standard_tables(table: TableType)
    ensures
        standard_content(TableType::ZeroEntry) == Some(TableContent::Zero),
        standard_content(TableType::RangeCheckSmall) == Some(TableContent::SmallRange),
        standard_content(TableType::And) == Some(TableContent::And),
        standard_content(TableType::Or) == Some(TableContent::Or),
        standard_content(TableType::Xor) == Some(TableContent::Xor),
        standard_content(TableType::QuickDecodeDecompositionCheck4x4x4) == Some(
            TableContent::FourFourFour,
        ),
        standard_content(TableType::QuickDecodeDecompositionCheck7x3x6) == Some(
            TableContent::SevenThreeSix,
        ),
        standard_content(TableType::U16GetSignAndHighByte) == Some(TableContent::SignAndHighByte),
        standard_content(table) is Some ==> seq![
            TableType::ZeroEntry,
            TableType::RangeCheckSmall,
            TableType::And,
            TableType::Or,
            TableType::Xor,
            TableType::QuickDecodeDecompositionCheck4x4x4,
            TableType::QuickDecodeDecompositionCheck7x3x6,
            TableType::U16GetSignAndHighByte,
        ].contains(table),
{
    let all = seq![
        TableType::ZeroEntry,
        TableType::RangeCheckSmall,
        TableType::And,
        TableType::Or,
        TableType::Xor,
        TableType::QuickDecodeDecompositionCheck4x4x4,
        TableType::QuickDecodeDecompositionCheck7x3x6,
        TableType::U16GetSignAndHighByte,
    ];
    assert(all[0] == TableType::ZeroEntry && all[1] == TableType::RangeCheckSmall);
    assert(all[2] == TableType::And && all[3] == TableType::Or && all[4] == TableType::Xor);
    assert(all[5] == TableType::QuickDecodeDecompositionCheck4x4x4);
    assert(all[6] == TableType::QuickDecodeDecompositionCheck7x3x6);
    assert(all[7] == TableType::U16GetSignAndHighByte);
}

proof fn lemma_all_standard_join(
    tables: Seq<(TableType, LookupTable)>,
    a: Seq<TableType>,
    b: Seq<TableType>,
)
    ensures
        with_all_standard(tables, a + b) == with_all_standard(with_all_standard(tables, a), b),
    decreases b.len(),
{
    if b.len() == 0 {
        assert(a + b =~= a);
    } else {
        lemma_all_standard_join(tables, a, b.drop_last());
        assert((a + b).drop_last() =~= a + b.drop_last());
    }
}

/// Standard tables are added at the end and in order, each under its number, and only if no table
/// of its type is there.
pub proof fn law_standard_tables_are_added_once(
    tables: Seq<(TableType, LookupTable)>,
    a: Seq<TableType>,
    b: Seq<TableType>,
    table: TableType,
)
    requires
        standard_content(table) is Some,
    ensures
        with_all_standard(tables, seq![]) == tables,
        with_all_standard(tables, a + b) == with_all_standard(with_all_standard(tables, a), b),
        (exists|i: int| 0 <= i < tables.len() && (#[trigger] tables[i]).0 == table)
            ==> with_all_standard(tables, seq![table]) == tables,
        (forall|i: int| 0 <= i < tables.len() ==> (#[trigger] tables[i]).0 != table) ==> {
            let after = with_all_standard(tables, seq![table]);
            &&& after.len() == tables.len() + 1
            &&& after.drop_last() == tables
            &&& after.last().0 == table
            &&& after.last().1.id == table.id()
            &&& Some(after.last().1.content) == standard_content(table)
        },
{
    lemma_all_standard_join(tables, a, b);
    assert(seq![table].drop_last() =~= seq![]);
    assert(with_all_standard(tables, seq![]) == tables);
    if !lists(tables, table) {
        assert(with_all_standard(tables, seq![table]).drop_last() =~= tables);
    }
}

/// A machine has the tables that it uses, then those that it brings along, then the common ones that
/// it does not have yet, then that of its instructions, and at the end the one that tells program
/// memory from the rest, if it reads instructions from a table.
pub proof fn law_order_of_machine_tables(machine: MachineTables, bits: int)
    requires
        0 <= bits <= 16,
    ensures
        ({
            let used = with_all_standard(seq![], machine.used_tables@);
            let own = used + machine.extra_tables@;
            let common = with_all_standard(
                own,
                seq![
                    TableType::And,
                    TableType::ZeroEntry,
                    TableType::QuickDecodeDecompositionCheck4x4x4,
                    TableType::QuickDecodeDecompositionCheck7x3x6,
                    TableType::U16GetSignAndHighByte,
                    TableType::RangeCheckSmall,
                ],
            );
            let n = common.len() as int;
            let all = machine_tables(machine, bits);
            &&& all.len() == n + 1 + if machine.use_rom_for_bytecode {
                1int
            } else {
                0int
            }
            &&& all.take(n) == common
            &&& all[n] == (TableType::OpTypeBitmask, machine.decoder_table)
            &&& machine.use_rom_for_bytecode ==> {
                &&& all[n + 1].0 == TableType::RomAddressSpaceSeparator
                &&& all[n + 1].1.id == TableType::RomAddressSpaceSeparator.id()
                &&& all[n + 1].1.content == TableContent::AddressSeparator(bits as u32)
            }
        }),
{
    let used = with_all_standard(seq![], machine.used_tables@);
    let common = with_all_standard(used + machine.extra_tables@, common_tables());
    assert(common_tables() =~= seq![
        TableType::And,
        TableType::ZeroEntry,
        TableType::QuickDecodeDecompositionCheck4x4x4,
        TableType::QuickDecodeDecompositionCheck7x3x6,
        TableType::U16GetSignAndHighByte,
        TableType::RangeCheckSmall,
    ]);
    assert(machine_tables(machine, bits).take(common.len() as int) =~= common);
}

/// What the tables hold is what the table of the given type holds.
pub proof fn law_contents_are_those_of_the_tables(
    driver: TableDriver,
    i: int,
    a: int,
    b: int,
    c: int,
)
    requires
        0 <= i < driver@.len(),
        forall|j: int| 0 <= j < driver@.len() && j != i ==> (#[trigger] driver@[j]).0
            != driver@[i].0,
    ensures
        driver.contents().holds(driver@[i].0, a, b, c) <==> driver@[i].1.content.holds(a, b, c),
{
}

} // verus!
