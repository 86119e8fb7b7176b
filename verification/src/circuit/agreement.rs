//! A satisfied row does what the machine does.
use crate::bits;
use crate::circuit::assembly;
use crate::circuit::assembly::{TableContents, TableType};
use crate::circuit::decoder;
use crate::circuit::decoder_laws;
use crate::circuit::expression::{Boolean, Register, Variable};
use crate::circuit::flags;
use crate::circuit::flags::{
    DecoderInstructionVariantsKey, DecoderMajorInstructionFamilyKey, DecoderOutputExtraKeysHolder,
    InstructionType, ADD_OP_KEY, SUB_OP_KEY,
};
use crate::circuit::ops;
use crate::circuit::ops::{AddOp, DecodableMachineOp, SubOp};
use crate::circuit::row;
use crate::circuit::selection;
use crate::circuit::slots;
use crate::circuit::state_transition;
use crate::circuit::transition;
use crate::circuit::transition::{StateTransition, LOAD_FAMILY, NUM_FAMILIES, STORE_FAMILY};
use crate::circuit::writeback;
use crate::field;
use crate::simulator::config::MachineConfig;
use crate::simulator::instruction;
use crate::simulator::instruction::{OP_IMM_SUBMASK, OP_SUBMASK, SUB_FUNCT7};
use crate::simulator::isa;
use crate::simulator::isa::{Action, CycleFault};
use crate::tables::lookup;
use crate::tables::lookup::TableContent;
use crate::tables::rom;
use vstd::prelude::*;

verus! {

/// Whether the tables of a row are those of a program with that many address bits beyond 16.
pub open spec fn holds_program(t: TableContents, image: Vec<u32>, bits: u32) -> bool {
    &&& forall|a: int, b: int, c: int| #[trigger]
        t.holds(TableType::RomRead, a, b, c) ==> TableContent::Program(image, bits).holds(a, b, c)
    &&& forall|a: int, b: int, c: int| #[trigger]
        t.holds(TableType::RomAddressSpaceSeparator, a, b, c) ==> TableContent::AddressSeparator(
            bits,
        ).holds(a, b, c)
}

/// The instruction that a program has at an address.
pub open spec fn instruction_of(image: Vec<u32>, address: int) -> u32 {
    lookup::instruction_at(image@, address / 4)
}

/// What a row reads from the program memory is the instruction at its program counter.
pub(crate) proof fn lemma_instruction_is_read(
    start: int,
    pc: Register,
    image: Vec<u32>,
    bits: u32,
    w: spec_fn(Variable) -> int,
    t: TableContents,
)
    requires
        0 < bits <= 14,
        decoder_laws::is_canonical(w),
        holds_program(t, image, bits),
        0 <= w(pc.low) < 0x1_0000,
        row::rom_demands(start, pc, w, t),
    ensures
        pc.in_range(w),
        pc.value(w) % 4 == 0,
        pc.value(w) + 4 <= 0x4000_0000,
        row::opcode_register(start).in_range(w),
        row::opcode_register(start).value(w) == instruction_of(image, pc.value(w)),
{
    let opcode = row::opcode_register(start);
    let is_ram = w(Variable(start as usize));
    let chunk = w(Variable((start + 1) as usize));
    assert(field::residue(w(pc.high)) == w(pc.high));
    assert(field::residue(is_ram) == is_ram);
    assert(field::residue(chunk) == chunk);
    assert(field::residue(w(opcode.low)) == w(opcode.low));
    assert(field::residue(w(opcode.high)) == w(opcode.high));
    let separator = TableContent::AddressSeparator(bits);
    assert(separator.holds(w(pc.high), is_ram, chunk));
    let i = choose|i: int|
        0 <= i < separator.rows() && #[trigger] separator.row_at(i) == (
            w(pc.high),
            is_ram,
            chunk,
        );
    vstd::arithmetic::power2::lemma2_to64();
    vstd::arithmetic::power2::lemma_pow2_pos(bits as nat);
    if bits < 14 {
        vstd::arithmetic::power2::lemma_pow2_strictly_increases(bits as nat, 14);
    }
    assert(i == w(pc.high));
    assert(i < lookup::power_of_two(bits as int));
    vstd::arithmetic::div_mod::lemma_small_mod(
        i as nat,
        vstd::arithmetic::power2::pow2(bits as nat),
    );
    assert(chunk == w(pc.high));
    let address = w(pc.low) + 0x1_0000 * chunk;
    assert(address == pc.value(w));
    assert(field::residue(address) == address);
    rom::law_rom_table_is_the_program(image, bits, address, w(opcode.low), w(opcode.high));
    vstd::arithmetic::power2::lemma_pow2_adds(2, (14 + bits) as nat);
    if bits < 14 {
        vstd::arithmetic::power2::lemma_pow2_strictly_increases((16 + bits) as nat, 30);
    }
}

/// What a satisfied row reads is the instruction at its program counter.
pub(crate) proof fn lemma_instruction_of_row(
    start: int,
    splitting: (int, int),
    perform_delegation: bool,
    image: Vec<u32>,
    bits: u32,
    w: spec_fn(Variable) -> int,
    t: TableContents,
)
    requires
        0 < bits <= 14,
        decoder_laws::is_canonical(w),
        holds_program(t, image, bits),
        transition::base_demands(start, splitting, perform_delegation, w, t),
    ensures
        ({
            let pc = state_transition::register_at(start);
            let opcode = row::opcode_register(start + 2);
            &&& pc.in_range(w)
            &&& pc.value(w) + 4 <= 0x4000_0000
            &&& opcode.in_range(w)
            &&& opcode.value(w) == instruction_of(image, pc.value(w))
        }),
{
    reveal(transition::base_demands);
    vstd::arithmetic::power2::lemma2_to64();
    lemma_instruction_is_read(
        start + 2,
        state_transition::register_at(start),
        image,
        bits,
        w,
        t,
    );
}

/// The bit `i` of two masks, the second of which follows the bits of the first.
pub open spec fn mask_bit(masks: (int, int), splitting: (int, int), i: int) -> int {
    if i < splitting.0 {
        assembly::bit_of(masks.0, i as nat)
    } else {
        assembly::bit_of(masks.1, (i - splitting.0) as nat)
    }
}

/// The flags of a row that satisfies its constraints are those that the opcode table has for the
/// instruction at its program counter: first whether it is invalid, then its format, then the
/// families and their variants.
pub proof fn law_flags_of_row_are_those_of_its_instruction(
    start: int,
    splitting: (int, int),
    perform_delegation: bool,
    masks: (int, int),
    image: Vec<u32>,
    bits: u32,
    w: spec_fn(Variable) -> int,
    t: TableContents,
    i: int,
)
    requires
        0 < bits <= 14,
        0 <= splitting.0 <= 30,
        0 <= splitting.1 <= 30,
        0 <= i < splitting.0 + splitting.1,
        decoder_laws::is_canonical(w),
        decoder_laws::has_width_tables(t),
        holds_program(t, image, bits),
        transition::base_demands(start, splitting, perform_delegation, w, t),
        ({
            let word = instruction_of(image, state_transition::register_at(start).value(w));
            let key = instruction::opcode_field(word) + 0x80 * instruction::funct3_field(word)
                + 0x400 * instruction::funct7_field(word);
            forall|x: int, y: int| #[trigger]
                t.holds(TableType::OpTypeBitmask, key, x, y) ==> x == masks.0 && y == masks.1
        }),
    ensures
        ({
            let n = state_transition::decoder_start(start + 2, perform_delegation);
            w(Variable((n + 9 + i) as usize)) == mask_bit(masks, splitting, i)
        }),
{
    let n = state_transition::decoder_start(start + 2, perform_delegation);
    let opcode = row::opcode_register(start + 2);
    lemma_instruction_of_row(start, splitting, perform_delegation, image, bits, w, t);
    assert(decoder::decode_demands(n, opcode, splitting, w, t)) by {
        reveal(transition::base_demands);
    }
    assert(decoder_laws::instruction_word(opcode, w) == instruction_of(
        image,
        state_transition::register_at(start).value(w),
    ));
    decoder_laws::law_decoded_flags_are_those_of_the_table(n, opcode, splitting, masks, w, t);
    let first = decoder::fresh_bits(n + 9, splitting.0);
    let second = decoder::fresh_bits(n + 9 + splitting.0, splitting.1);
    if i < splitting.0 {
        assert(first[i].value(w) == assembly::bit_of(masks.0, i as nat));
    } else {
        assert(second[i - splitting.0].value(w) == assembly::bit_of(
            masks.1,
            (i - splitting.0) as nat,
        ));
    }
}

/// Whether a row is one that addition and subtraction have contributed to, and the other families
/// after them.
#[verifier::opaque]
pub open spec fn is_arithmetic_row(
    row: StateTransition,
    start: int,
    splitting: (int, int),
    perform_delegation: bool,
    add_flag: Boolean,
    sub_flag: Boolean,
) -> bool {
    let tail = transition::tail_start(start, splitting, perform_delegation);
    let a = transition::operand1(start, splitting, perform_delegation);
    let b = transition::operand2(start, splitting, perform_delegation);
    let result = state_transition::register_at(tail + 7);
    let n = state_transition::decoder_start(start + 2, perform_delegation);
    let opcode = row::opcode_register(start + 2);
    let queries = state_transition::queries_at(tail - 14, Variable((n + 8) as usize));
    let results = row.application_results@;
    &&& row.formats == decoder::formats_from(n + 10)
    &&& decoder::is_rd(row.rd, n, opcode)
    &&& decoder::is_rs2(row.decoder_output.rs2_index, n, opcode)
    &&& row.rs1_query == queries.0
    &&& row.rs2_or_mem_load_query == queries.1.in_memory_where(
        results[LOAD_FAMILY as int].exec_flag,
    )
    &&& row.rd_or_mem_store_query == queries.2.in_memory_where(
        results[STORE_FAMILY as int].exec_flag,
    )
    &&& row.decoder_output.pc_next == state_transition::register_at(tail + 1)
    &&& row.decoder_output.src1.register == a
    &&& row.decoder_output.src2.register == b
    &&& row.opt_ctx.slots().len() > 0
    &&& ops::fresh_slot(
        tail + 7,
        seq![
            ops::relation_of(a, b, false, result, add_flag),
            ops::relation_of(a, b, true, result, sub_flag),
        ],
        row.opt_ctx.slots()[0],
    )
    &&& results.len() == NUM_FAMILIES
    &&& ops::is_arithmetic_outcome(results[0], add_flag, result)
    &&& ops::is_arithmetic_outcome(results[1], sub_flag, result)
}

/// The register in which a row finds the value of its second source register.
pub open spec fn rs2_value_at(
    start: int,
    splitting: (int, int),
    perform_delegation: bool,
) -> Register {
    state_transition::register_at(
        transition::tail_start(start, splitting, perform_delegation) - 12,
    )
}

/// Whether an instruction is the addition or subtraction that the flags of a row speak of.
pub open spec fn is_arithmetic_instruction(word: u32, immediate: bool, subtract: bool) -> bool {
    &&& instruction::funct3_field(word) == 0
    &&& if immediate {
        instruction::opcode_field(word) == OP_IMM_SUBMASK && !subtract
    } else {
        &&& instruction::opcode_field(word) == OP_SUBMASK
        &&& instruction::funct7_field(word) == if subtract {
            SUB_FUNCT7 as int
        } else {
            0
        }
    }
}

/// Whether exactly one family has spoken in a row.
#[verifier::opaque]
pub open spec fn only_speaker(
    row: StateTransition,
    active: int,
    w: spec_fn(Variable) -> int,
) -> bool {
    &&& writeback::one_family(row.application_results@, active, w)
    &&& forall|i: int|
        0 <= i < NUM_FAMILIES && i != active ==> writeback::is_silent(
            #[trigger] row.application_results@[i],
            w,
        )
}

/// The place of a format among the format bits of the opcode table.
pub open spec fn format_place(kind: InstructionType) -> int {
    match kind {
        InstructionType::RType => 0,
        InstructionType::IType => 1,
        InstructionType::SType => 2,
        InstructionType::BType => 3,
        InstructionType::UType => 4,
        InstructionType::JType => 5,
    }
}

/// Whether a row of the opcode table says that an instruction has the format `kind` and belongs to
/// the family `family`, and to no other. The bit that tells invalid instructions comes first, the
/// formats follow, and then the families.
pub open spec fn names_family(
    masks: (int, int),
    splitting: (int, int),
    keys: DecoderOutputExtraKeysHolder,
    kind: InstructionType,
    family: DecoderMajorInstructionFamilyKey,
) -> bool {
    &&& forall|f: int|
        1 <= f <= 6 ==> #[trigger] mask_bit(masks, splitting, f) == if f == 1 + format_place(kind) {
            1int
        } else {
            0
        }
    &&& forall|i: int|
        7 <= i < 7 + keys.major_keys@.len() ==> #[trigger] mask_bit(masks, splitting, i)
            == if keys.major_keys@[i - 7] == family {
            1int
        } else {
            0
        }
}

/// Whether every family of a row speaks by its flag: the flag that tells whether it executes is that
/// of its key, or zero if it has none, and where it is zero the family offers no value.
pub open spec fn speaks_by_flags(
    row: StateTransition,
    keys: DecoderOutputExtraKeysHolder,
    w: spec_fn(Variable) -> int,
) -> bool {
    let results = row.application_results@;
    let families = transition::family_order();
    &&& results.len() == NUM_FAMILIES
    &&& forall|i: int|
        0 <= i < NUM_FAMILIES ==> {
            &&& if keys.major_keys@.contains(#[trigger] families[i]) {
                results[i].exec_flag == row.flags_source.values()[flags::index_of(
                    keys.major_keys@,
                    families[i],
                )]
            } else {
                results[i].exec_flag.value(w) == 0
            }
            &&& results[i].exec_flag.value(w) == 0 ==> writeback::is_silent(results[i], w)
        }
}

/// What the opcode table has for the instruction of a row decides which family speaks: where the
/// table names a family, and the families speak by their flags, that family is the only one.
pub proof fn law_named_family_is_the_only_speaker(
    row: StateTransition,
    start: int,
    splitting: (int, int),
    keys: DecoderOutputExtraKeysHolder,
    perform_delegation: bool,
    masks: (int, int),
    kind: InstructionType,
    active: int,
    image: Vec<u32>,
    bits: u32,
    w: spec_fn(Variable) -> int,
    t: TableContents,
)
    requires
        0 < bits <= 14,
        0 <= splitting.0 <= 30,
        0 <= splitting.1 <= 30,
        7 + keys.major_keys@.len() <= splitting.0 + splitting.1,
        0 <= active < NUM_FAMILIES,
        keys.major_keys@.contains(transition::family_order()[active]),
        decoder_laws::is_canonical(w),
        decoder_laws::has_width_tables(t),
        holds_program(t, image, bits),
        transition::base_demands(start, splitting, perform_delegation, w, t),
        ({
            let n = state_transition::decoder_start(start + 2, perform_delegation);
            row.flags_source.values() == decoder::fresh_bits(
                n + 16,
                splitting.0 + splitting.1 - 7,
            )
        }),
        speaks_by_flags(row, keys, w),
        names_family(masks, splitting, keys, kind, transition::family_order()[active]),
        ({
            let word = instruction_of(image, state_transition::register_at(start).value(w));
            let key = instruction::opcode_field(word) + 0x80 * instruction::funct3_field(word)
                + 0x400 * instruction::funct7_field(word);
            forall|x: int, y: int| #[trigger]
                t.holds(TableType::OpTypeBitmask, key, x, y) ==> x == masks.0 && y == masks.1
        }),
    ensures
        only_speaker(row, active, w),
        ({
            let n = state_transition::decoder_start(start + 2, perform_delegation);
            let f = decoder::format_values(decoder::formats_from(n + 10), w);
            &&& decoder_laws::one_format(f)
            &&& kind is RType ==> f.r == 1
            &&& kind is IType ==> f.i == 1
        }),
{
    let n = state_transition::decoder_start(start + 2, perform_delegation);
    let results = row.application_results@;
    let families = transition::family_order();
    let major = keys.major_keys@;
    assert forall|i: int| 0 <= i < splitting.0 + splitting.1 implies #[trigger] w(
        Variable((n + 9 + i) as usize),
    ) == mask_bit(masks, splitting, i) by {
        law_flags_of_row_are_those_of_its_instruction(
            start,
            splitting,
            perform_delegation,
            masks,
            image,
            bits,
            w,
            t,
            i,
        );
    }
    assert(w(Variable((n + 9 + 1) as usize)) == mask_bit(masks, splitting, 1));
    assert(w(Variable((n + 9 + 2) as usize)) == mask_bit(masks, splitting, 2));
    assert(w(Variable((n + 9 + 3) as usize)) == mask_bit(masks, splitting, 3));
    assert(w(Variable((n + 9 + 4) as usize)) == mask_bit(masks, splitting, 4));
    assert(w(Variable((n + 9 + 5) as usize)) == mask_bit(masks, splitting, 5));
    assert(w(Variable((n + 9 + 6) as usize)) == mask_bit(masks, splitting, 6));
    assert forall|i: int| 0 <= i < NUM_FAMILIES implies (#[trigger] results[i]).exec_flag.value(w)
        == if i == active {
        1int
    } else {
        0
    } by {
        if i != active {
            lemma_families_are_distinct(i, active);
        }
        assert(families[i] == families[i]);
        if major.contains(families[i]) {
            let k = flags::index_of(major, families[i]);
            flags::lemma_index_of_contained(major, families[i]);
            assert(w(Variable((n + 9 + (7 + k)) as usize)) == mask_bit(masks, splitting, 7 + k));
            assert(row.flags_source.values()[k] == Boolean::Is(Variable((n + 16 + k) as usize)));
        }
    }
    assert(only_speaker(row, active, w)) by {
        reveal(only_speaker);
        assert forall|i: int| 0 <= i < NUM_FAMILIES && i != active implies writeback::is_silent(
            #[trigger] results[i],
            w,
        ) by {
            assert(families[i] == families[i]);
        }
    }
}

/// No family comes twice.
proof fn lemma_families_are_distinct(i: int, j: int)
    requires
        0 <= i < NUM_FAMILIES,
        0 <= j < NUM_FAMILIES,
        i != j,
    ensures
        transition::family_order()[i] != transition::family_order()[j],
{
}

/// The second operand of an addition or subtraction: the immediate or the second register.
pub(crate) proof fn lemma_second_operand(
    start: int,
    splitting: (int, int),
    perform_delegation: bool,
    immediate: bool,
    word: u32,
    w: spec_fn(Variable) -> int,
    t: TableContents,
)
    requires
        decoder_laws::is_canonical(w),
        decoder_laws::has_width_tables(t),
        transition::base_demands(start, splitting, perform_delegation, w, t),
        row::opcode_register(start + 2).in_range(w),
        row::opcode_register(start + 2).value(w) == word,
        rs2_value_at(start, splitting, perform_delegation).in_range(w),
        ({
            let n = state_transition::decoder_start(start + 2, perform_delegation);
            let f = decoder::format_values(decoder::formats_from(n + 10), w);
            &&& decoder_laws::one_format(f)
            &&& immediate ==> f.i == 1
            &&& !immediate ==> f.r == 1
        }),
    ensures
        transition::operand2(start, splitting, perform_delegation).in_range(w),
        transition::operand2(start, splitting, perform_delegation).value(w) == if immediate {
            isa::i_operand(word) as int
        } else {
            rs2_value_at(start, splitting, perform_delegation).value(w)
        },
{
    reveal(transition::base_demands);
    let n = state_transition::decoder_start(start + 2, perform_delegation);
    let opcode = row::opcode_register(start + 2);
    let formats = decoder::formats_from(n + 10);
    let imm = decoder::imm_from(n, splitting);
    let rs2 = rs2_value_at(start, splitting, perform_delegation);
    let selected = transition::operand2(start, splitting, perform_delegation);
    let chosen: int = if immediate {
        1
    } else {
        0
    };
    assert(decoder_laws::instruction_word(opcode, w) == word);
    decoder_laws::law_decoded_immediate_is_right(n, opcode, splitting, w, t);
    assert(selection::is_one_hot(selection::operand_flags(formats), chosen, w));
    assert(selection::is_selected(formats, imm, rs2, selected, w));
    selection::law_second_operand_by_format(formats, imm, rs2, selected, chosen, w);
    lemma_same_limbs(selected, if immediate { imm } else { rs2 }, formats, imm, rs2, chosen, w);
}

/// A selected register has the limbs of the chosen one.
proof fn lemma_same_limbs(
    selected: Register,
    picked: Register,
    formats: decoder::FormatBits<Boolean>,
    imm: Register,
    rs2: Register,
    chosen: int,
    w: spec_fn(Variable) -> int,
)
    requires
        decoder_laws::is_canonical(w),
        chosen == 0 || chosen == 1,
        picked == selection::operand_variants(imm, rs2)[chosen],
        picked.in_range(w),
        selection::is_one_hot(selection::operand_flags(formats), chosen, w),
        selection::is_selected(formats, imm, rs2, selected, w),
    ensures
        selected.in_range(w),
{
    let variants = selection::operand_variants(imm, rs2);
    let flags = selection::operand_flags(formats);
    selection::law_flagged_sum_selects(flags, selection::low_limbs(variants), chosen, w);
    selection::law_flagged_sum_selects(flags, selection::high_limbs(variants), chosen, w);
    assert(selection::low_limbs(variants)[chosen] == picked.low);
    assert(selection::high_limbs(variants)[chosen] == picked.high);
    assert(0 <= w(selected.low) < 0x7fff_ffff && 0 <= w(selected.high) < 0x7fff_ffff);
}

/// Whether a row does what the machine does with the instruction at its program counter, which
/// writes a register: it reads the two source registers and leaves them as they are, writes the
/// machine's value to the destination register, where the register zero stays zero, and goes on at
/// the machine's program counter.
pub open spec fn does_what_the_machine_does<C: MachineConfig>(
    row: StateTransition,
    start: int,
    close_start: int,
    image: Vec<u32>,
    w: spec_fn(Variable) -> int,
) -> bool {
    let pc = state_transition::register_at(start).value(w);
    let word = instruction_of(image, pc);
    let a = row.rs1_query.read_value.value(w);
    let b = row.rs2_or_mem_load_query.read_value.value(w);
    let rd = state_transition::register_at(close_start).value(w);
    let next = state_transition::register_at(close_start + 2).value(w);
    &&& isa::action_of::<C>(word, pc as u32, a as u32, b as u32) == Ok::<Action, CycleFault>(
        Action::WriteRegister { value: rd as u32, next_pc: next as u32 },
    )
    &&& 0 <= rd <= u32::MAX
    &&& 0 <= next <= u32::MAX
    &&& row.rs1_query.goes_to_register(instruction::rs1_field(word), w)
    &&& row.rs1_query.write_value == row.rs1_query.read_value
    &&& row.rs2_or_mem_load_query.goes_to_register(instruction::rs2_field(word), w)
    &&& row.rs2_or_mem_load_query.write_value == row.rs2_or_mem_load_query.read_value
    &&& row.rd_or_mem_store_query.goes_to_register(instruction::rd_field(word), w)
    &&& row.rd_or_mem_store_query.write_value.value(w) == if instruction::rd_field(word) == 0 {
        0
    } else {
        rd
    }
}

/// A row that satisfies its constraints and whose instruction adds or subtracts does what the
/// machine does with that instruction.
#[verifier::rlimit(40)]
#[verifier::spinoff_prover]
pub proof fn law_row_agrees_with_the_machine<C: MachineConfig>(
    row: StateTransition,
    start: int,
    splitting: (int, int),
    perform_delegation: bool,
    add_flag: Boolean,
    sub_flag: Boolean,
    immediate: bool,
    subtract: bool,
    close_start: int,
    image: Vec<u32>,
    bits: u32,
    w: spec_fn(Variable) -> int,
    t: TableContents,
)
    requires
        0 < bits <= 14,
        decoder_laws::is_canonical(w),
        decoder_laws::has_width_tables(t),
        holds_program(t, image, bits),
        is_arithmetic_row(row, start, splitting, perform_delegation, add_flag, sub_flag),
        transition::base_demands(start, splitting, perform_delegation, w, t),
        ops::slot_is_boolean(row.opt_ctx.slots()[0].carry, row.opt_ctx.slots()[0].overflow, w),
        row.opt_ctx.slots()[0].demands(w),
        transition::close_demands(close_start, row, w),
        only_speaker(
            row,
            if subtract {
                1
            } else {
                0
            },
            w,
        ),
        ({
            let n = state_transition::decoder_start(start + 2, perform_delegation);
            let f = decoder::format_values(decoder::formats_from(n + 10), w);
            &&& decoder_laws::one_format(f)
            &&& immediate ==> f.i == 1
            &&& !immediate ==> f.r == 1
        }),
        is_arithmetic_instruction(
            instruction_of(image, state_transition::register_at(start).value(w)),
            immediate,
            subtract,
        ),
        row.rs1_query.read_value.in_range(w),
        row.rs2_or_mem_load_query.read_value.in_range(w),
    ensures
        does_what_the_machine_does::<C>(row, start, close_start, image, w),
{
    let pc = state_transition::register_at(start);
    let word = instruction_of(image, pc.value(w));
    let a = transition::operand1(start, splitting, perform_delegation);
    let b = rs2_value_at(start, splitting, perform_delegation);
    lemma_instruction_of_row(start, splitting, perform_delegation, image, bits, w, t);
    lemma_accesses_of_row(
        row,
        start,
        splitting,
        perform_delegation,
        close_start,
        add_flag,
        sub_flag,
        subtract,
        word,
        w,
        t,
    );
    lemma_second_operand(start, splitting, perform_delegation, immediate, word, w, t);
    lemma_result_of_row(
        row,
        start,
        splitting,
        perform_delegation,
        close_start,
        add_flag,
        sub_flag,
        subtract,
        w,
    );
    lemma_next_pc_of_row(
        row,
        start,
        splitting,
        perform_delegation,
        close_start,
        add_flag,
        sub_flag,
        subtract,
        w,
        t,
    );
    lemma_arithmetic_action::<C>(
        word,
        pc.value(w) as u32,
        a.value(w) as u32,
        b.value(w) as u32,
        immediate,
        subtract,
    );
}

/// The part of the opcode table that addition or subtraction claims for an instruction.
pub open spec fn arithmetic_subspace(word: u32, subtract: bool) -> Option<
    (InstructionType, DecoderMajorInstructionFamilyKey, Seq<DecoderInstructionVariantsKey>),
> {
    let opcode = instruction::opcode_field(word) as u8;
    let funct3 = instruction::funct3_field(word) as u8;
    let funct7 = instruction::funct7_field(word) as u8;
    if subtract {
        SubOp.subspace(opcode, funct3, funct7)
    } else {
        AddOp.subspace(opcode, funct3, funct7)
    }
}

/// A row that satisfies its constraints does what the machine does with an instruction that addition
/// or subtraction claims, where the opcode table has what they claim and the families speak by
/// their flags. That no other family speaks follows from the table.
pub proof fn law_arithmetic_row_follows_from_the_table<C: MachineConfig>(
    row: StateTransition,
    start: int,
    splitting: (int, int),
    keys: DecoderOutputExtraKeysHolder,
    perform_delegation: bool,
    masks: (int, int),
    subtract: bool,
    close_start: int,
    image: Vec<u32>,
    bits: u32,
    w: spec_fn(Variable) -> int,
    t: TableContents,
)
    requires
        0 < bits <= 14,
        0 <= splitting.0 <= 30,
        0 <= splitting.1 <= 30,
        7 + keys.major_keys@.len() <= splitting.0 + splitting.1,
        keys.major_keys@.contains(ADD_OP_KEY),
        keys.major_keys@.contains(SUB_OP_KEY),
        decoder_laws::is_canonical(w),
        decoder_laws::has_width_tables(t),
        holds_program(t, image, bits),
        ({
            let n = state_transition::decoder_start(start + 2, perform_delegation);
            row.flags_source.values() == decoder::fresh_bits(
                n + 16,
                splitting.0 + splitting.1 - 7,
            )
        }),
        is_arithmetic_row(
            row,
            start,
            splitting,
            perform_delegation,
            row.flags_source.values()[flags::index_of(keys.major_keys@, ADD_OP_KEY)],
            row.flags_source.values()[flags::index_of(keys.major_keys@, SUB_OP_KEY)],
        ),
        speaks_by_flags(row, keys, w),
        transition::base_demands(start, splitting, perform_delegation, w, t),
        ops::slot_is_boolean(row.opt_ctx.slots()[0].carry, row.opt_ctx.slots()[0].overflow, w),
        row.opt_ctx.slots()[0].demands(w),
        transition::close_demands(close_start, row, w),
        row.rs1_query.read_value.in_range(w),
        row.rs2_or_mem_load_query.read_value.in_range(w),
        ({
            let word = instruction_of(image, state_transition::register_at(start).value(w));
            let key = instruction::opcode_field(word) + 0x80 * instruction::funct3_field(word)
                + 0x400 * instruction::funct7_field(word);
            &&& arithmetic_subspace(word, subtract) matches Some((kind, family, _))
            &&& names_family(masks, splitting, keys, kind, family)
            &&& forall|x: int, y: int| #[trigger]
                t.holds(TableType::OpTypeBitmask, key, x, y) ==> x == masks.0 && y == masks.1
        }),
    ensures
        does_what_the_machine_does::<C>(row, start, close_start, image, w),
{
    let word = instruction_of(image, state_transition::register_at(start).value(w));
    let kind = match arithmetic_subspace(word, subtract) {
        Some((kind, _, _)) => kind,
        None => InstructionType::RType,
    };
    let immediate = kind is IType;
    let active: int = if subtract {
        1
    } else {
        0
    };
    assert(transition::family_order()[0] == ADD_OP_KEY);
    assert(transition::family_order()[1] == SUB_OP_KEY);
    law_named_family_is_the_only_speaker(
        row,
        start,
        splitting,
        keys,
        perform_delegation,
        masks,
        kind,
        active,
        image,
        bits,
        w,
        t,
    );
    law_row_agrees_with_the_machine::<C>(
        row,
        start,
        splitting,
        perform_delegation,
        row.flags_source.values()[flags::index_of(keys.major_keys@, ADD_OP_KEY)],
        row.flags_source.values()[flags::index_of(keys.major_keys@, SUB_OP_KEY)],
        immediate,
        subtract,
        close_start,
        image,
        bits,
        w,
        t,
    );
}

/// Which registers a row accesses.
proof fn lemma_accesses_of_row(
    row: StateTransition,
    start: int,
    splitting: (int, int),
    perform_delegation: bool,
    close_start: int,
    add_flag: Boolean,
    sub_flag: Boolean,
    subtract: bool,
    word: u32,
    w: spec_fn(Variable) -> int,
    t: TableContents,
)
    requires
        decoder_laws::is_canonical(w),
        decoder_laws::has_width_tables(t),
        is_arithmetic_row(row, start, splitting, perform_delegation, add_flag, sub_flag),
        transition::base_demands(start, splitting, perform_delegation, w, t),
        transition::close_demands(close_start, row, w),
        row::opcode_register(start + 2).in_range(w),
        row::opcode_register(start + 2).value(w) == word,
        only_speaker(
            row,
            if subtract {
                1
            } else {
                0
            },
            w,
        ),
        ({
            let n = state_transition::decoder_start(start + 2, perform_delegation);
            let f = decoder::format_values(decoder::formats_from(n + 10), w);
            decoder_laws::one_format(f) && (f.i == 1 || f.r == 1)
        }),
    ensures
        row.rs1_query.goes_to_register(instruction::rs1_field(word), w),
        row.rs1_query.read_value == transition::operand1(start, splitting, perform_delegation),
        row.rs1_query.write_value == row.rs1_query.read_value,
        row.rs2_or_mem_load_query.goes_to_register(instruction::rs2_field(word), w),
        row.rs2_or_mem_load_query.read_value == rs2_value_at(start, splitting, perform_delegation),
        row.rs2_or_mem_load_query.write_value == row.rs2_or_mem_load_query.read_value,
        row.rd_or_mem_store_query.goes_to_register(instruction::rd_field(word), w),
        row.rd_or_mem_store_query.write_value.value(w) == if instruction::rd_field(word) == 0 {
            0
        } else {
            state_transition::register_at(close_start).value(w)
        },
{
    reveal(is_arithmetic_row);
    let n = state_transition::decoder_start(start + 2, perform_delegation);
    let opcode = row::opcode_register(start + 2);
    assert(decoder::decode_demands(n, opcode, splitting, w, t)) by {
        reveal(transition::base_demands);
    }
    decoder_laws::law_decoded_registers_are_right(
        n,
        opcode,
        splitting,
        row.rd,
        row.decoder_output.rs2_index,
        w,
        t,
    );
    assert(decoder_laws::instruction_word(opcode, w) == word);
    assert(row.application_results@[LOAD_FAMILY as int].exec_flag.value(w) == 0
        && row.application_results@[STORE_FAMILY as int].exec_flag.value(w) == 0) by {
        reveal(only_speaker);
    }
    slots::law_slots_are_bound(
        close_start + 4,
        row.formats,
        row.rd,
        row.decoder_output.rs2_index,
        row.rs2_or_mem_load_query,
        row.rd_or_mem_store_query,
        state_transition::register_at(close_start),
        w,
    );
}

/// What a row writes to the destination register.
pub(crate) proof fn lemma_result_of_row(
    row: StateTransition,
    start: int,
    splitting: (int, int),
    perform_delegation: bool,
    close_start: int,
    add_flag: Boolean,
    sub_flag: Boolean,
    subtract: bool,
    w: spec_fn(Variable) -> int,
)
    requires
        decoder_laws::is_canonical(w),
        is_arithmetic_row(row, start, splitting, perform_delegation, add_flag, sub_flag),
        transition::operand1(start, splitting, perform_delegation).in_range(w),
        transition::operand2(start, splitting, perform_delegation).in_range(w),
        ops::slot_is_boolean(row.opt_ctx.slots()[0].carry, row.opt_ctx.slots()[0].overflow, w),
        row.opt_ctx.slots()[0].demands(w),
        transition::choice_demands(
            close_start,
            row.application_results@,
            row.decoder_output.pc_next,
            w,
        ),
        only_speaker(
            row,
            if subtract {
                1
            } else {
                0
            },
            w,
        ),
    ensures
        ({
            let a = transition::operand1(start, splitting, perform_delegation).value(w);
            let b = transition::operand2(start, splitting, perform_delegation).value(w);
            state_transition::register_at(close_start).value(w) == bits::wrap32(
                if subtract {
                    a - b
                } else {
                    a + b
                },
            )
        }),
        state_transition::register_at(close_start).in_range(w),
{
    reveal(is_arithmetic_row);
    reveal(only_speaker);
    let tail = transition::tail_start(start, splitting, perform_delegation);
    let results = row.application_results@;
    assert(add_flag.value(w) == if subtract {
        0int
    } else {
        1
    }) by {
        assert(results[0].exec_flag == add_flag);
    }
    assert(sub_flag.value(w) == if subtract {
        1int
    } else {
        0
    }) by {
        assert(results[1].exec_flag == sub_flag);
    }
    transition::law_row_adds_and_subtracts(
        row,
        tail + 7,
        close_start,
        add_flag,
        sub_flag,
        subtract,
        w,
    );
}

/// Where a row goes on.
proof fn lemma_next_pc_of_row(
    row: StateTransition,
    start: int,
    splitting: (int, int),
    perform_delegation: bool,
    close_start: int,
    add_flag: Boolean,
    sub_flag: Boolean,
    subtract: bool,
    w: spec_fn(Variable) -> int,
    t: TableContents,
)
    requires
        decoder_laws::is_canonical(w),
        state_transition::register_at(start).in_range(w),
        is_arithmetic_row(row, start, splitting, perform_delegation, add_flag, sub_flag),
        transition::base_demands(start, splitting, perform_delegation, w, t),
        transition::choice_demands(
            close_start,
            row.application_results@,
            row.decoder_output.pc_next,
            w,
        ),
        only_speaker(
            row,
            if subtract {
                1
            } else {
                0
            },
            w,
        ),
    ensures
        state_transition::register_at(close_start + 2).value(w) == state_transition::register_at(
            start,
        ).value(w) + 4,
{
    reveal(is_arithmetic_row);
    reveal(only_speaker);
    let tail = transition::tail_start(start, splitting, perform_delegation);
    let pc = state_transition::register_at(start);
    let results = row.application_results@;
    let active: int = if subtract {
        1
    } else {
        0
    };
    assert(state_transition::next_pc_demands(tail, pc, w)) by {
        reveal(transition::base_demands);
    }
    state_transition::law_next_pc_is_four_more(tail, pc, w);
    let default = row.decoder_output.pc_next;
    writeback::law_next_pc_is_the_active_one(results, active, default.low, false, w);
    writeback::law_next_pc_is_the_active_one(results, active, default.high, true, w);
    let next = state_transition::register_at(close_start + 2);
    assert(0 <= w(next.low) < 0x7fff_ffff && 0 <= w(next.high) < 0x7fff_ffff);
    assert(0 <= w(default.low) < 0x7fff_ffff && 0 <= w(default.high) < 0x7fff_ffff);
    assert(w(next.low) == w(default.low) && w(next.high) == w(default.high));
}

/// What the machine does with an addition or a subtraction.
pub(crate) proof fn lemma_arithmetic_action<C: MachineConfig>(
    word: u32,
    pc: u32,
    a: u32,
    b: u32,
    immediate: bool,
    subtract: bool,
)
    requires
        is_arithmetic_instruction(word, immediate, subtract),
    ensures
        ({
            let second = if immediate {
                isa::i_operand(word)
            } else {
                b
            };
            isa::action_of::<C>(word, pc, a, b) == Ok::<Action, CycleFault>(
                Action::WriteRegister {
                    value: bits::wrap32(
                        if subtract {
                            a - second
                        } else {
                            a + second
                        },
                    ),
                    next_pc: bits::wrap32(pc + 4),
                },
            )
        }),
{
    reveal(isa::arithmetic_action);
}

} // verus!
