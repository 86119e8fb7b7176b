//! A row whose values were computed satisfies its constraints.
use crate::circuit::agreement;
use crate::circuit::assembly;
use crate::circuit::assembly::{OutsideValues, Placeholder, TableContents, TableType};
use crate::circuit::decoder;
use crate::circuit::decoder_laws;
use crate::circuit::expression::{Boolean, Register, Variable};
use crate::circuit::flags;
use crate::circuit::flags::{
    DecoderOutputExtraKeysHolder, InstructionType, ADD_OP_KEY, SUB_OP_KEY,
};
use crate::circuit::ops;
use crate::circuit::ops::AddSlot;
use crate::circuit::row;
use crate::circuit::selection;
use crate::circuit::slots;
use crate::circuit::state_transition;
use crate::circuit::state_transition::ShuffleRamQueryType;
use crate::circuit::transition;
use crate::circuit::transition::StateTransition;
use crate::circuit::writeback;
use crate::field;
use crate::prime;
use crate::simulator::config::MachineConfig;
use crate::simulator::instruction;
use crate::simulator::isa;
use crate::simulator::isa::Action;
use crate::tables::lookup;
use crate::tables::lookup::TableContent;
use vstd::arithmetic::power2;
use vstd::prelude::*;

verus! {

/// The comparison of a limb with a constant accepts what it computes.
pub proof fn law_comparison_accepts_what_it_computes(
    start: int,
    limb: Variable,
    c: int,
    w: spec_fn(Variable) -> int,
)
    requires
        row::difference_computes(start, limb, c, w),
    ensures
        row::difference_demands(start, limb, c, w),
{
    let d = w(limb) - c;
    let z = w(Variable(start as usize));
    let inverse = w(Variable((start + 1) as usize));
    prime::lemma_boolean(z);
    assert(d * 0 == 0 && d * 1 == d && 0 * inverse == 0);
    field::lemma_residue_absorb(d, inverse);
    field::lemma_residue_absorb(d * inverse, z - 1);
}

/// The next program counter accepts what it computes.
pub proof fn law_next_pc_accepts_what_it_computes(
    start: int,
    pc: Register,
    w: spec_fn(Variable) -> int,
)
    requires
        pc.in_range(w),
        state_transition::next_pc_computes(start, pc, w),
    ensures
        state_transition::next_pc_demands(start, pc, w),
{
    let carry = w(Variable(start as usize));
    let next = state_transition::register_at(start + 1);
    power2::lemma2_to64();
    prime::lemma_boolean(carry);
    field::lemma_residue_small(w(pc.low) + 4);
    field::lemma_residue_small(w(pc.low) + 4 - 0x1_0000 * carry);
    field::lemma_residue_small(w(pc.high) + carry);
}

/// The table of signs holds nothing but half-words with their uppermost bits.
pub open spec fn has_sign_table(t: TableContents) -> bool {
    forall|a: int, b: int, c: int| #[trigger]
        t.holds(TableType::U16GetSignAndHighByte, a, b, c) ==> TableContent::SignAndHighByte.holds(
            a,
            b,
            c,
        )
}

/// The lookup of a sign accepts what it computes.
pub proof fn law_sign_accepts_what_it_computes(
    start: int,
    reg: Register,
    w: spec_fn(Variable) -> int,
    t: TableContents,
)
    requires
        decoder_laws::is_canonical(w),
        has_sign_table(t),
        state_transition::sign_computes(start, reg, w, t),
    ensures
        state_transition::sign_demands(start, reg, w, t),
{
    let high = field::residue(w(reg.high));
    let sign = w(Variable(start as usize));
    let byte = w(Variable((start + 1) as usize));
    let table = TableContent::SignAndHighByte;
    assert(table.holds(high, sign, byte));
    let i = choose|i: int| 0 <= i < table.rows() && #[trigger] table.row_at(i) == (high, sign, byte);
    assert(sign == i / 0x8000);
    prime::lemma_boolean(sign);
    field::lemma_residue_small(sign);
    field::lemma_residue_small(byte);
}

/// Reading an instruction accepts what it computes, where the program counter lies in program
/// memory.
pub proof fn law_read_accepts_what_it_computes(
    start: int,
    pc: Register,
    image: Vec<u32>,
    bits: u32,
    w: spec_fn(Variable) -> int,
    t: TableContents,
)
    requires
        0 < bits <= 14,
        decoder_laws::is_canonical(w),
        agreement::holds_program(t, image, bits),
        0 <= w(pc.high) < lookup::power_of_two(bits as int),
        row::rom_computes(start, pc, w, t),
    ensures
        row::rom_demands(start, pc, w, t),
{
    let is_ram = w(Variable(start as usize));
    let chunk = w(Variable((start + 1) as usize));
    let opcode = row::opcode_register(start);
    assert(field::residue(w(pc.high)) == w(pc.high));
    let separator = TableContent::AddressSeparator(bits);
    assert(separator.holds(w(pc.high), is_ram, chunk));
    let i = choose|i: int|
        0 <= i < separator.rows() && #[trigger] separator.row_at(i) == (
            w(pc.high),
            is_ram,
            chunk,
        );
    assert(is_ram == 0);
    assert(field::residue(chunk) == chunk);
    assert(field::residue(w(opcode.low)) == w(opcode.low));
    assert(field::residue(w(opcode.high)) == w(opcode.high));
}

/// The halves of a sum, and its carries.
proof fn lemma_sum_of_halves(y: (int, int), z: (int, int), sum: int)
    requires
        are_halves(y),
        are_halves(z),
        0 <= sum < 0x1_0000_0000,
        joined(y) + joined(z) == sum || joined(y) + joined(z) == sum + 0x1_0000_0000,
    ensures
        ({
            let carry = assembly::bit(y.0 + z.0 >= 0x1_0000);
            let overflow = assembly::bit(joined(y) + joined(z) >= 0x1_0000_0000);
            &&& y.0 + z.0 - sum % 0x1_0000 - 0x1_0000 * carry == 0
            &&& y.1 + z.1 + carry - sum / 0x1_0000 - 0x1_0000 * overflow == 0
        }),
{
    let carry = assembly::bit(y.0 + z.0 >= 0x1_0000);
    let overflow = assembly::bit(joined(y) + joined(z) >= 0x1_0000_0000);
    let low = y.0 + z.0 - 0x1_0000 * carry;
    let high = y.1 + z.1 + carry - 0x1_0000 * overflow;
    assert(sum == low + 0x1_0000 * high);
    assert(0 <= low < 0x1_0000);
    assert(sum % 0x1_0000 == low && sum / 0x1_0000 == high);
}

/// What an active relation computes makes its deviations vanish.
proof fn lemma_computed_sum_does_not_deviate(
    slot: AddSlot,
    a: Register,
    b: Register,
    flag: Boolean,
    subtract: bool,
    w: spec_fn(Variable) -> int,
)
    requires
        a.in_range(w),
        b.in_range(w),
        flag.value(w) == 1,
        ops::sum_rule(a, b, subtract, flag, slot).is_computed(w),
    ensures
        ({
            let r = ops::relation_of(a, b, subtract, slot.result, flag);
            &&& ops::low_deviation(r, slot.carry, w) == 0
            &&& ops::high_deviation(r, slot.carry, slot.overflow, w) == 0
        }),
        slot.result.in_range(w),
        slot.carry.value(w) == 0 || slot.carry.value(w) == 1,
        slot.overflow.value(w) == 0 || slot.overflow.value(w) == 1,
{
    let rule = ops::sum_rule(a, b, subtract, flag, slot);
    let outcome = rule.outcome(w);
    let (x, y) = ((w(a.low), w(a.high)), (w(b.low), w(b.high)));
    let z = (w(slot.result.low), w(slot.result.high));
    lemma_halves_of(outcome, z);
    lemma_halves_of(joined(x), x);
    lemma_halves_of(joined(y), y);
    if subtract {
        lemma_sum_of_halves(y, z, joined(x));
    } else {
        lemma_sum_of_halves(x, y, outcome);
    }
    let r = ops::relation_of(a, b, subtract, slot.result, flag);
    let (low, high) = (
        w(r.x.low) + w(r.y.low) - w(r.z.low) - 0x1_0000 * slot.carry.value(w),
        w(r.x.high) + w(r.y.high) + slot.carry.value(w) - w(r.z.high) - 0x1_0000
            * slot.overflow.value(w),
    );
    assert(low == 0 && high == 0);
    assert(1 * low == low && 1 * high == high);
}

/// The halves of a number.
proof fn lemma_halves_of(value: int, halves: (int, int))
    requires
        0 <= value < 0x1_0000_0000,
        halves_hold(halves, value) || are_halves(halves) && joined(halves) == value,
    ensures
        are_halves(halves),
        joined(halves) == value,
        halves_hold(halves, value),
{
}

/// A slot of which one relation is active accepts what that relation computes.
pub proof fn law_slot_accepts_what_it_computes(
    slot: AddSlot,
    a: Register,
    b: Register,
    add_flag: Boolean,
    sub_flag: Boolean,
    subtract: bool,
    w: spec_fn(Variable) -> int,
)
    requires
        a.in_range(w),
        b.in_range(w),
        slot.relations@ == seq![
            ops::relation_of(a, b, false, slot.result, add_flag),
            ops::relation_of(a, b, true, slot.result, sub_flag),
        ],
        add_flag.value(w) == assembly::bit(!subtract),
        sub_flag.value(w) == assembly::bit(subtract),
        ops::sum_rule(
            a,
            b,
            subtract,
            if subtract {
                sub_flag
            } else {
                add_flag
            },
            slot,
        ).is_computed(w),
    ensures
        ops::slot_is_boolean(slot.carry, slot.overflow, w),
        slot.demands(w),
{
    power2::lemma2_to64();
    let flag = if subtract {
        sub_flag
    } else {
        add_flag
    };
    lemma_computed_sum_does_not_deviate(slot, a, b, flag, subtract, w);
    let (carry, overflow) = (slot.carry, slot.overflow);
    prime::lemma_boolean(carry.value(w));
    prime::lemma_boolean(overflow.value(w));
    let relations = slot.relations@;
    let (add, sub) = (relations[0], relations[1]);
    lemma_inactive_relation(if subtract { add } else { sub }, carry, overflow, w);
    let one = seq![add];
    let none = Seq::<ops::AddRelation>::empty();
    assert(relations.drop_last() =~= one);
    assert(one.drop_last() =~= none);
    assert(ops::low_deviations(none, carry, w) == 0);
    assert(ops::high_deviations(none, carry, overflow, w) == 0);
    assert(ops::low_deviations(one, carry, w) == 0);
    assert(ops::high_deviations(one, carry, overflow, w) == 0);
    assert(ops::low_deviations(relations, carry, w) == 0);
    assert(ops::high_deviations(relations, carry, overflow, w) == 0);
}

/// A relation whose flag is zero does not deviate.
proof fn lemma_inactive_relation(
    r: ops::AddRelation,
    carry: Boolean,
    overflow: Boolean,
    w: spec_fn(Variable) -> int,
)
    requires
        r.exec_flag.value(w) == 0,
    ensures
        ops::low_deviation(r, carry, w) == 0,
        ops::high_deviation(r, carry, overflow, w) == 0,
{
    let p = w(r.x.low) + w(r.y.low) - w(r.z.low) - 0x1_0000 * carry.value(w);
    let q = w(r.x.high) + w(r.y.high) + carry.value(w) - w(r.z.high) - 0x1_0000 * overflow.value(w);
    assert(0 * p == 0 && 0 * q == 0);
}

/// Whether the opcode table has one row for an instruction, with these masks.
pub open spec fn has_one_entry(word: u32, masks: (int, int), t: TableContents) -> bool {
    let key = instruction::opcode_field(word) + 0x80 * instruction::funct3_field(word) + 0x400
        * instruction::funct7_field(word);
    &&& t.holds(TableType::OpTypeBitmask, key, masks.0, masks.1)
    &&& forall|x: int, y: int| #[trigger]
        t.holds(TableType::OpTypeBitmask, key, x, y) ==> x == masks.0 && y == masks.1
}

/// Whether a number is held by two halves of 16 bits.
pub open spec fn halves_hold(halves: (int, int), value: int) -> bool {
    halves.0 == value % 0x1_0000 && halves.1 == value / 0x1_0000
}

/// The value of two halves.
pub open spec fn joined(halves: (int, int)) -> int {
    halves.0 + 0x1_0000 * halves.1
}

/// Whether two halves have 16 bits.
pub open spec fn are_halves(halves: (int, int)) -> bool {
    0 <= halves.0 < 0x1_0000 && 0 <= halves.1 < 0x1_0000
}

/// Whether the values that come from outside of a row are those of a cycle that executes the
/// instruction at the program counter and writes a register: the program counter lies in program
/// memory, the second and third access go to the registers that the instruction names, and the
/// third one writes what the machine writes, zero to the register zero.
pub open spec fn are_of_cycle<C: MachineConfig>(
    x: OutsideValues,
    image: Vec<u32>,
    bits: u32,
) -> bool {
    let pc = (x.limbs)(Placeholder::PcInit);
    let word = agreement::instruction_of(image, joined(pc));
    let rd = instruction::rd_field(word);
    let a = (x.limbs)(Placeholder::ShuffleRamReadValue(0));
    let b = (x.limbs)(Placeholder::ShuffleRamReadValue(1));
    &&& are_halves(pc)
    &&& pc.1 < lookup::power_of_two(bits as int)
    &&& are_halves(a)
    &&& are_halves(b)
    &&& (x.limbs)(Placeholder::ShuffleRamAddress(1)) == (instruction::rs2_field(word), 0int)
    &&& (x.limbs)(Placeholder::ShuffleRamAddress(2)) == (rd, 0int)
    &&& isa::action_of::<C>(word, joined(pc) as u32, joined(a) as u32, joined(b) as u32) matches Ok(
        Action::WriteRegister { value, .. },
    ) && halves_hold(
        (x.limbs)(Placeholder::ShuffleRamWriteValue(2)),
        if rd == 0 {
            0
        } else {
            value as int
        },
    )
}

/// An instruction that adds or subtracts is not the padding.
proof fn lemma_arithmetic_is_not_padding(
    start: int,
    opcode: Register,
    word: u32,
    w: spec_fn(Variable) -> int,
)
    requires
        opcode.in_range(w),
        opcode.value(w) == word,
        instruction::opcode_field(word) != row::UNIMP_LOW % 0x80,
        row::no_unimp_computes(start, opcode, w),
    ensures
        row::no_unimp_demands(start, opcode, w),
{
    law_comparison_accepts_what_it_computes(start, opcode.low, row::UNIMP_LOW as int, w);
    law_comparison_accepts_what_it_computes(start + 2, opcode.high, row::UNIMP_HIGH as int, w);
    let d = w(opcode.low) - row::UNIMP_LOW;
    let z = w(Variable((start + 2) as usize));
    assert(d != 0) by {
        if d == 0 {
            let (low, high) = (w(opcode.low), w(opcode.high));
            assert((low + 0x1_0000 * high) % 0x80 == low % 0x80);
        }
    }
    assert(field::residue(d) != 0);
    assert(0 * z == 0);
}

/// The opening of a row accepts what it computes, where the program counter lies in program memory
/// and the opcode table has one row for the instruction, which does not call it invalid.
#[verifier::rlimit(20)]
#[verifier::spinoff_prover]
proof fn lemma_opening_accepts_what_it_computes(
    start: int,
    splitting: (int, int),
    perform_delegation: bool,
    masks: (int, int),
    image: Vec<u32>,
    bits: u32,
    w: spec_fn(Variable) -> int,
    t: TableContents,
    x: OutsideValues,
)
    requires
        0 < bits <= 14,
        0 <= splitting.0 <= 30,
        0 <= splitting.1 <= 30,
        splitting.0 + splitting.1 > 0,
        0 <= masks.0 < power2::pow2(splitting.0 as nat),
        0 <= masks.1 < power2::pow2(splitting.1 as nat),
        agreement::mask_bit(masks, splitting, 0) == 0,
        decoder_laws::is_canonical(w),
        decoder_laws::has_width_tables(t),
        has_sign_table(t),
        agreement::holds_program(t, image, bits),
        transition::base_computes(start, splitting, perform_delegation, w, t, x),
        are_halves((x.limbs)(Placeholder::PcInit)),
        (x.limbs)(Placeholder::PcInit).1 < lookup::power_of_two(bits as int),
        ({
            let word = agreement::instruction_of(image, joined((x.limbs)(Placeholder::PcInit)));
            &&& has_one_entry(word, masks, t)
            &&& instruction::opcode_field(word) != row::UNIMP_LOW % 0x80
        }),
    ensures
        transition::base_demands(start, splitting, perform_delegation, w, t),
{
    reveal(transition::base_computes);
    reveal(transition::base_demands);
    power2::lemma2_to64();
    let pc = state_transition::register_at(start);
    let opening = transition::opening_start(start);
    let opcode = row::opcode_register(opening);
    let n = state_transition::decoder_start(opening, perform_delegation);
    let after = n + 11 + splitting.0 + splitting.1;
    let tail = transition::tail_start(start, splitting, perform_delegation);
    let word = agreement::instruction_of(image, pc.value(w));
    assert(x.fills(pc, Placeholder::PcInit, w));
    assert(pc.value(w) == joined((x.limbs)(Placeholder::PcInit)));
    law_read_accepts_what_it_computes(opening, pc, image, bits, w, t);
    agreement::lemma_instruction_is_read(opening, pc, image, bits, w, t);
    assert(decoder_laws::instruction_word(opcode, w) == word);
    decoder_laws::lemma_key_of_cut(w(opcode.low), w(opcode.high), word);
    decoder_laws::law_decoder_accepts_what_it_computes(n, opcode, splitting, w, t, masks);
    decoder_laws::law_decoded_flags_are_those_of_the_table(n, opcode, splitting, masks, w, t);
    assert(w(Variable((n + 9) as usize)) == 0) by {
        let first = decoder::fresh_bits(n + 9, splitting.0);
        let second = decoder::fresh_bits(n + 9 + splitting.0, splitting.1);
        if splitting.0 > 0 {
            assert(first[0].value(w) == assembly::bit_of(masks.0, 0));
        } else {
            assert(second[0].value(w) == assembly::bit_of(masks.1, 0));
        }
    }
    if !perform_delegation {
        lemma_arithmetic_is_not_padding(opening + 4, opcode, word, w);
    }
    selection::law_computed_operand_is_selected(
        decoder::formats_from(n + 10),
        decoder::imm_from(n, splitting),
        state_transition::register_at(after + 2),
        state_transition::register_at(after + 12),
        w,
    );
    law_next_pc_accepts_what_it_computes(tail, pc, w);
    law_sign_accepts_what_it_computes(
        tail + 3,
        transition::operand1(start, splitting, perform_delegation),
        w,
        t,
    );
    law_sign_accepts_what_it_computes(
        tail + 5,
        transition::operand2(start, splitting, perform_delegation),
        w,
        t,
    );
}

/// A variable that has the value that it is bound to is bound, whatever the flag.
proof fn lemma_bound_to_its_value(
    flag: Boolean,
    v: Variable,
    value: int,
    w: spec_fn(Variable) -> int,
)
    requires
        w(v) == value,
    ensures
        slots::is_bound(flag, v, value, w),
{
    assert(flag.value(w) * 0 == 0);
}

/// The binding of the accesses accepts what it computes, where the accesses go to the registers
/// that the instruction names and the third one writes the selected value, zero to the register
/// zero.
#[verifier::rlimit(20)]
#[verifier::spinoff_prover]
proof fn lemma_binding_accepts_what_it_computes(
    start: int,
    row: StateTransition,
    selected: Register,
    rs2_address: Register,
    rd_address: Register,
    rd: int,
    w: spec_fn(Variable) -> int,
)
    requires
        decoder_laws::is_canonical(w),
        selected.in_range(w),
        selection::update_rd(row.formats, w) == 1,
        row.rd.value(w) == rd,
        0 <= rd < 0x20,
        slots::slot_computes(start, row.formats, row.rd, selected, w),
        row.rs2_or_mem_load_query.query_type matches ShuffleRamQueryType::RegisterOrRam {
            address,
            ..
        } && address == rs2_address,
        row.rd_or_mem_store_query.query_type matches ShuffleRamQueryType::RegisterOrRam {
            address,
            ..
        } && address == rd_address,
        w(rs2_address.low) == row.decoder_output.rs2_index.value(w),
        w(rs2_address.high) == 0,
        w(rd_address.low) == rd,
        w(rd_address.high) == 0,
        w(row.rd_or_mem_store_query.write_value.low) == if rd == 0 {
            0
        } else {
            w(selected.low)
        },
        w(row.rd_or_mem_store_query.write_value.high) == if rd == 0 {
            0
        } else {
            w(selected.high)
        },
    ensures
        slots::slot_demands(
            start,
            row.formats,
            row.rd,
            row.decoder_output.rs2_index,
            row.rs2_or_mem_load_query,
            row.rd_or_mem_store_query,
            selected,
            w,
        ),
{
    let index = Variable(start as usize);
    let is_zero = w(Variable((start + 1) as usize));
    let written = state_transition::register_at(start + 3);
    let (low, high) = (w(selected.low), w(selected.high));
    assert(1 * rd == rd);
    field::lemma_residue_small(rd);
    assert(w(index) == rd);
    law_comparison_accepts_what_it_computes(start + 1, index, 0, w);
    assert(is_zero == assembly::bit(rd == 0));
    assert(0 * low == 0 && 1 * low == low && 0 * high == 0 && 1 * high == high);
    field::lemma_residue_small(low);
    field::lemma_residue_small(high);
    field::lemma_residue_small(0);
    let rs2_query = row.rs2_or_mem_load_query;
    let rd_query = row.rd_or_mem_store_query;
    let rs2 = row.decoder_output.rs2_index.value(w);
    lemma_bound_to_its_value(rs2_query.register_flag(), rs2_address.low, rs2, w);
    lemma_bound_to_its_value(rs2_query.register_flag(), rs2_address.high, 0, w);
    lemma_bound_to_its_value(rd_query.register_flag(), rd_address.low, rd, w);
    lemma_bound_to_its_value(rd_query.register_flag(), rd_address.high, 0, w);
    lemma_bound_to_its_value(
        rd_query.register_flag(),
        rd_query.write_value.low,
        field::residue(w(written.low)),
        w,
    );
    lemma_bound_to_its_value(
        rd_query.register_flag(),
        rd_query.write_value.high,
        field::residue(w(written.high)),
        w,
    );
}

/// What was computed for the choice of the destination value and of the next program counter is
/// accepted.
proof fn lemma_choice_accepts_what_it_computes(
    start: int,
    row: StateTransition,
    w: spec_fn(Variable) -> int,
)
    requires
        transition::close_computes(start, row, w),
    ensures
        transition::choice_demands(
            start,
            row.application_results@,
            row.decoder_output.pc_next,
            w,
        ),
{
    let results = row.application_results@;
    let next = row.decoder_output.pc_next;
    field::lemma_residue_absorb(writeback::rd_sum(results, false, w), 0);
    field::lemma_residue_absorb(writeback::rd_sum(results, true, w), 0);
    field::lemma_residue_absorb(writeback::pc_sum(results, next.low, false, w), 0);
    field::lemma_residue_absorb(writeback::pc_sum(results, next.high, true, w), 0);
}

/// Where the values that come from outside stand in a row.
proof fn lemma_outside_values_of_row(
    start: int,
    splitting: (int, int),
    perform_delegation: bool,
    w: spec_fn(Variable) -> int,
    t: TableContents,
    x: OutsideValues,
)
    requires
        transition::base_computes(start, splitting, perform_delegation, w, t, x),
    ensures
        x.fills(state_transition::register_at(start), Placeholder::PcInit, w),
        state_transition::accesses_are_filled(
            transition::tail_start(start, splitting, perform_delegation) - 14,
            w,
            x,
        ),
{
    reveal(transition::base_computes);
}

/// The slot of addition and subtraction accepts what it computes, and what its second operand is.
#[verifier::rlimit(20)]
#[verifier::spinoff_prover]
proof fn lemma_slot_of_row(
    row: StateTransition,
    start: int,
    splitting: (int, int),
    perform_delegation: bool,
    add_flag: Boolean,
    sub_flag: Boolean,
    immediate: bool,
    subtract: bool,
    image: Vec<u32>,
    bits: u32,
    w: spec_fn(Variable) -> int,
    t: TableContents,
)
    requires
        0 < bits <= 14,
        decoder_laws::is_canonical(w),
        decoder_laws::has_width_tables(t),
        agreement::holds_program(t, image, bits),
        agreement::is_arithmetic_row(row, start, splitting, perform_delegation, add_flag, sub_flag),
        transition::base_demands(start, splitting, perform_delegation, w, t),
        transition::sums_are_computed(row, add_flag, sub_flag, w),
        agreement::only_speaker(
            row,
            if subtract {
                1
            } else {
                0
            },
            w,
        ),
        ({
            let n = state_transition::decoder_start(start + 2, perform_delegation);
            let f = decoder::format_values(decoder::formats_from(n + 10), w);
            &&& decoder_laws::one_format(f)
            &&& immediate ==> f.i == 1
            &&& !immediate ==> f.r == 1
        }),
        transition::operand1(start, splitting, perform_delegation).in_range(w),
        agreement::rs2_value_at(start, splitting, perform_delegation).in_range(w),
    ensures
        ops::slot_is_boolean(row.opt_ctx.slots()[0].carry, row.opt_ctx.slots()[0].overflow, w),
        row.opt_ctx.slots()[0].demands(w),
        ({
            let word = agreement::instruction_of(
                image,
                state_transition::register_at(start).value(w),
            );
            let second = transition::operand2(start, splitting, perform_delegation);
            &&& row::opcode_register(start + 2).in_range(w)
            &&& row::opcode_register(start + 2).value(w) == word
            &&& second.in_range(w)
            &&& second.value(w) == if immediate {
                isa::i_operand(word) as int
            } else {
                agreement::rs2_value_at(start, splitting, perform_delegation).value(w)
            }
        }),
{
    let word = agreement::instruction_of(image, state_transition::register_at(start).value(w));
    agreement::lemma_instruction_of_row(start, splitting, perform_delegation, image, bits, w, t);
    agreement::lemma_second_operand(
        start,
        splitting,
        perform_delegation,
        immediate,
        word,
        w,
        t,
    );
    reveal(agreement::is_arithmetic_row);
    assert(add_flag.value(w) == assembly::bit(!subtract) && sub_flag.value(w) == assembly::bit(
        subtract,
    )) by {
        reveal(agreement::only_speaker);
        let results = row.application_results@;
        assert(results[0].exec_flag == add_flag);
        assert(results[1].exec_flag == sub_flag);
    }
    law_slot_accepts_what_it_computes(
        row.opt_ctx.slots()[0],
        transition::operand1(start, splitting, perform_delegation),
        transition::operand2(start, splitting, perform_delegation),
        add_flag,
        sub_flag,
        subtract,
        w,
    );
}

/// The accesses of a row that was computed are bound.
#[verifier::rlimit(20)]
#[verifier::spinoff_prover]
proof fn lemma_binding_of_row(
    row: StateTransition,
    start: int,
    splitting: (int, int),
    perform_delegation: bool,
    close_start: int,
    add_flag: Boolean,
    sub_flag: Boolean,
    word: u32,
    w: spec_fn(Variable) -> int,
    t: TableContents,
)
    requires
        decoder_laws::is_canonical(w),
        decoder_laws::has_width_tables(t),
        agreement::is_arithmetic_row(row, start, splitting, perform_delegation, add_flag, sub_flag),
        transition::base_demands(start, splitting, perform_delegation, w, t),
        transition::close_computes(close_start, row, w),
        row::opcode_register(start + 2).in_range(w),
        row::opcode_register(start + 2).value(w) == word,
        ({
            let n = state_transition::decoder_start(start + 2, perform_delegation);
            let f = decoder::format_values(decoder::formats_from(n + 10), w);
            decoder_laws::one_format(f) && (f.i == 1 || f.r == 1)
        }),
        state_transition::register_at(close_start).in_range(w),
        ({
            let accesses = transition::tail_start(start, splitting, perform_delegation) - 14;
            let rs2_address = state_transition::register_at(accesses + 4);
            let rd_address = state_transition::register_at(accesses + 10);
            let written = state_transition::register_at(accesses + 8);
            let selected = state_transition::register_at(close_start);
            let rd = instruction::rd_field(word);
            &&& w(rs2_address.low) == instruction::rs2_field(word)
            &&& w(rs2_address.high) == 0
            &&& w(rd_address.low) == rd
            &&& w(rd_address.high) == 0
            &&& w(written.low) == if rd == 0 {
                0
            } else {
                w(selected.low)
            }
            &&& w(written.high) == if rd == 0 {
                0
            } else {
                w(selected.high)
            }
        }),
    ensures
        slots::slot_demands(
            close_start + 4,
            row.formats,
            row.rd,
            row.decoder_output.rs2_index,
            row.rs2_or_mem_load_query,
            row.rd_or_mem_store_query,
            state_transition::register_at(close_start),
            w,
        ),
{
    reveal(agreement::is_arithmetic_row);
    let n = state_transition::decoder_start(start + 2, perform_delegation);
    let opcode = row::opcode_register(start + 2);
    let accesses = transition::tail_start(start, splitting, perform_delegation) - 14;
    assert(decoder::decode_demands(n, opcode, splitting, w, t)) by {
        reveal(transition::base_demands);
    }
    decoder_laws::law_decoded_registers_are_right(
        n,
        opcode,
        splitting,
        row.rd,
        row.decoder_output.rs2_index,
        w,
        t,
    );
    assert(decoder_laws::instruction_word(opcode, w) == word);
    lemma_binding_accepts_what_it_computes(
        close_start + 4,
        row,
        state_transition::register_at(close_start),
        state_transition::register_at(accesses + 4),
        state_transition::register_at(accesses + 10),
        instruction::rd_field(word),
        w,
    );
}

/// A row whose instruction adds or subtracts, and whose values were computed from those of the
/// machine's cycle, satisfies everything that it demands: a program that the machine executes has a
/// witness.
#[verifier::rlimit(40)]
#[verifier::spinoff_prover]
pub proof fn law_computed_arithmetic_row_is_accepted<C: MachineConfig>(
    row: StateTransition,
    start: int,
    splitting: (int, int),
    keys: DecoderOutputExtraKeysHolder,
    perform_delegation: bool,
    masks: (int, int),
    subtract: bool,
    close_start: int,
    image: Vec<u32>,
    bits: u32,
    w: spec_fn(Variable) -> int,
    t: TableContents,
    x: OutsideValues,
)
    requires
        0 < bits <= 14,
        0 <= splitting.0 <= 30,
        0 <= splitting.1 <= 30,
        7 + keys.major_keys@.len() <= splitting.0 + splitting.1,
        keys.major_keys@.contains(ADD_OP_KEY),
        keys.major_keys@.contains(SUB_OP_KEY),
        0 <= masks.0 < power2::pow2(splitting.0 as nat),
        0 <= masks.1 < power2::pow2(splitting.1 as nat),
        agreement::mask_bit(masks, splitting, 0) == 0,
        decoder_laws::is_canonical(w),
        decoder_laws::has_width_tables(t),
        has_sign_table(t),
        agreement::holds_program(t, image, bits),
        ({
            let n = state_transition::decoder_start(start + 2, perform_delegation);
            row.flags_source.values() == decoder::fresh_bits(
                n + 16,
                splitting.0 + splitting.1 - 7,
            )
        }),
        agreement::is_arithmetic_row(
            row,
            start,
            splitting,
            perform_delegation,
            row.flags_source.values()[flags::index_of(keys.major_keys@, ADD_OP_KEY)],
            row.flags_source.values()[flags::index_of(keys.major_keys@, SUB_OP_KEY)],
        ),
        agreement::speaks_by_flags(row, keys, w),
        transition::base_computes(start, splitting, perform_delegation, w, t, x),
        transition::sums_are_computed(
            row,
            row.flags_source.values()[flags::index_of(keys.major_keys@, ADD_OP_KEY)],
            row.flags_source.values()[flags::index_of(keys.major_keys@, SUB_OP_KEY)],
            w,
        ),
        transition::close_computes(close_start, row, w),
        are_of_cycle::<C>(x, image, bits),
        ({
            let word = agreement::instruction_of(image, joined((x.limbs)(Placeholder::PcInit)));
            &&& has_one_entry(word, masks, t)
            &&& agreement::arithmetic_subspace(word, subtract) matches Some((kind, family, _))
            &&& agreement::names_family(masks, splitting, keys, kind, family)
        }),
    ensures
        transition::base_demands(start, splitting, perform_delegation, w, t),
        ops::slot_is_boolean(row.opt_ctx.slots()[0].carry, row.opt_ctx.slots()[0].overflow, w),
        row.opt_ctx.slots()[0].demands(w),
        transition::close_demands(close_start, row, w),
{
    let add_flag = row.flags_source.values()[flags::index_of(keys.major_keys@, ADD_OP_KEY)];
    let sub_flag = row.flags_source.values()[flags::index_of(keys.major_keys@, SUB_OP_KEY)];
    let pc = state_transition::register_at(start);
    let word = agreement::instruction_of(image, joined((x.limbs)(Placeholder::PcInit)));
    let kind = match agreement::arithmetic_subspace(word, subtract) {
        Some((kind, _, _)) => kind,
        None => InstructionType::RType,
    };
    let immediate = kind is IType;
    let active: int = if subtract {
        1
    } else {
        0
    };
    lemma_opening_accepts_what_it_computes(
        start,
        splitting,
        perform_delegation,
        masks,
        image,
        bits,
        w,
        t,
        x,
    );
    lemma_outside_values_of_row(start, splitting, perform_delegation, w, t, x);
    assert(transition::family_order()[0] == ADD_OP_KEY);
    assert(transition::family_order()[1] == SUB_OP_KEY);
    agreement::law_named_family_is_the_only_speaker(
        row,
        start,
        splitting,
        keys,
        perform_delegation,
        masks,
        kind,
        active,
        image,
        bits,
        w,
        t,
    );
    lemma_slot_of_row(
        row,
        start,
        splitting,
        perform_delegation,
        add_flag,
        sub_flag,
        immediate,
        subtract,
        image,
        bits,
        w,
        t,
    );
    lemma_choice_accepts_what_it_computes(close_start, row, w);
    agreement::lemma_result_of_row(
        row,
        start,
        splitting,
        perform_delegation,
        close_start,
        add_flag,
        sub_flag,
        subtract,
        w,
    );
    agreement::lemma_arithmetic_action::<C>(
        word,
        pc.value(w) as u32,
        transition::operand1(start, splitting, perform_delegation).value(w) as u32,
        agreement::rs2_value_at(start, splitting, perform_delegation).value(w) as u32,
        immediate,
        subtract,
    );
    lemma_binding_of_row(
        row,
        start,
        splitting,
        perform_delegation,
        close_start,
        add_flag,
        sub_flag,
        word,
        w,
        t,
    );
}

} // verus!
