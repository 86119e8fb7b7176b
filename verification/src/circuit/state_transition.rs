//! One row of the machine: from the program counter of a cycle to that of the next.
use crate::circuit::assembly;
use crate::circuit::assembly::{
    BasicAssembly, OutsideValues, Placeholder, TableContents, TableType, WitnessRule,
};
use crate::circuit::decoder;
use crate::circuit::decoder::{
    DecoderInput, FormatBits, OptimizedDecoder, OptimizedDecoderOutput, NUM_INSTRUCTION_TYPES,
};
use crate::circuit::expression;
use crate::circuit::expression::{Boolean, Constraint, Register, Variable};
use crate::circuit::flags;
use crate::circuit::flags::{BasicFlagsSource, DecoderOutputExtraKeysHolder};
use crate::circuit::ops::RegisterDecompositionWithSign;
use crate::circuit::row;
use crate::circuit::row::{
    assert_no_unimp, read_opcode_from_rom, RD_STORE_LOCAL_TIMESTAMP, RS1_LOAD_LOCAL_TIMESTAMP,
    RS2_LOAD_LOCAL_TIMESTAMP,
};
use crate::circuit::selection;
use crate::circuit::selection::select_second_operand;
use crate::field;
use crate::prime;
use vstd::arithmetic::power2;
use vstd::prelude::*;

verus! {

/// What a memory access of a cycle goes to.
#[derive(Clone, Copy, PartialEq, Eq, Structural, Debug)]
pub enum ShuffleRamQueryType {
    /// A register, by its number.
    RegisterOnly { register_index: Variable },
    /// A register or a memory word, as the flag says.
    RegisterOrRam { is_register: Boolean, address: Register },
}

/// A memory access of a cycle: what is read there and what is written back.
#[derive(Clone, Copy, PartialEq, Eq, Structural, Debug)]
pub struct ShuffleRamMemQuery {
    pub query_type: ShuffleRamQueryType,
    pub local_timestamp_in_cycle: u32,
    pub read_value: Register,
    pub write_value: Register,
}

/// A register on the variables from `start` on.
pub open spec fn register_at(start: int) -> Register {
    Register { low: Variable(start as usize), high: Variable((start + 1) as usize) }
}

/// The three accesses of a cycle, with variables from `start` on: the first source register; the
/// second one, or the word that a load reads; the destination register, or the word that a store
/// writes.
pub open spec fn queries_at(start: int, rs1: Variable) -> (
    ShuffleRamMemQuery,
    ShuffleRamMemQuery,
    ShuffleRamMemQuery,
) {
    (
        ShuffleRamMemQuery {
            query_type: ShuffleRamQueryType::RegisterOnly { register_index: rs1 },
            local_timestamp_in_cycle: RS1_LOAD_LOCAL_TIMESTAMP,
            read_value: register_at(start),
            write_value: register_at(start),
        },
        ShuffleRamMemQuery {
            query_type: ShuffleRamQueryType::RegisterOrRam {
                is_register: Boolean::Constant(true),
                address: register_at(start + 4),
            },
            local_timestamp_in_cycle: RS2_LOAD_LOCAL_TIMESTAMP,
            read_value: register_at(start + 2),
            write_value: register_at(start + 2),
        },
        ShuffleRamMemQuery {
            query_type: ShuffleRamQueryType::RegisterOrRam {
                is_register: Boolean::Constant(true),
                address: register_at(start + 10),
            },
            local_timestamp_in_cycle: RD_STORE_LOCAL_TIMESTAMP,
            read_value: register_at(start + 6),
            write_value: register_at(start + 8),
        },
    )
}

/// Where the values of the three accesses come from.
pub open spec fn access_rules(start: int) -> Seq<WitnessRule> {
    seq![
        WitnessRule::External(register_at(start), Placeholder::ShuffleRamReadValue(0)),
        WitnessRule::External(register_at(start + 2), Placeholder::ShuffleRamReadValue(1)),
        WitnessRule::External(register_at(start + 4), Placeholder::ShuffleRamAddress(1)),
        WitnessRule::External(register_at(start + 6), Placeholder::ShuffleRamReadValue(2)),
        WitnessRule::External(register_at(start + 8), Placeholder::ShuffleRamWriteValue(2)),
        WitnessRule::External(register_at(start + 10), Placeholder::ShuffleRamAddress(2)),
    ]
}

/// Whether the accesses hold what came from outside for them.
pub open spec fn accesses_are_filled(
    start: int,
    w: spec_fn(Variable) -> int,
    x: OutsideValues,
) -> bool {
    &&& x.fills(register_at(start), Placeholder::ShuffleRamReadValue(0), w)
    &&& x.fills(register_at(start + 2), Placeholder::ShuffleRamReadValue(1), w)
    &&& x.fills(register_at(start + 4), Placeholder::ShuffleRamAddress(1), w)
    &&& x.fills(register_at(start + 6), Placeholder::ShuffleRamReadValue(2), w)
    &&& x.fills(register_at(start + 8), Placeholder::ShuffleRamWriteValue(2), w)
    &&& x.fills(register_at(start + 10), Placeholder::ShuffleRamAddress(2), w)
}

/// Allocates the three accesses of a cycle. Their values come from the memory, which is consistent
/// in itself, so they are not checked here.
fn preallocate_queries(cs: &mut BasicAssembly, rs1: Variable) -> (r: (
    ShuffleRamMemQuery,
    ShuffleRamMemQuery,
    ShuffleRamMemQuery,
))
    requires
        old(cs).next() + 12 <= usize::MAX,
    ensures
        r == queries_at(old(cs).next(), rs1),
        final(cs).next() == old(cs).next() + 12,
        final(cs).statements() == old(cs).statements(),
        final(cs).rules() == old(cs).rules() + access_rules(old(cs).next()),
        forall|w: spec_fn(Variable) -> int, t: TableContents, x: OutsideValues| #[trigger]
            final(cs).computed(w, t, x) <==> old(cs).computed(w, t, x) && accesses_are_filled(
                old(cs).next(),
                w,
                x,
            ),
{
    let ghost before = cs.rules();
    let ghost n = cs.next();
    let rs1_value = cs.new_unchecked_from_placeholder(Placeholder::ShuffleRamReadValue(0));
    let rs2_value = cs.new_unchecked_from_placeholder(Placeholder::ShuffleRamReadValue(1));
    let rs2_address = cs.new_unchecked_from_placeholder(Placeholder::ShuffleRamAddress(1));
    let rd_read_value = cs.new_unchecked_from_placeholder(Placeholder::ShuffleRamReadValue(2));
    let rd_write_value = cs.new_unchecked_from_placeholder(Placeholder::ShuffleRamWriteValue(2));
    let rd_address = cs.new_unchecked_from_placeholder(Placeholder::ShuffleRamAddress(2));
    assert(cs.rules() =~= before + access_rules(n));
    (
        ShuffleRamMemQuery {
            query_type: ShuffleRamQueryType::RegisterOnly { register_index: rs1 },
            local_timestamp_in_cycle: RS1_LOAD_LOCAL_TIMESTAMP,
            read_value: rs1_value,
            write_value: rs1_value,
        },
        ShuffleRamMemQuery {
            query_type: ShuffleRamQueryType::RegisterOrRam {
                is_register: Boolean::Constant(true),
                address: rs2_address,
            },
            local_timestamp_in_cycle: RS2_LOAD_LOCAL_TIMESTAMP,
            read_value: rs2_value,
            write_value: rs2_value,
        },
        ShuffleRamMemQuery {
            query_type: ShuffleRamQueryType::RegisterOrRam {
                is_register: Boolean::Constant(true),
                address: rd_address,
            },
            local_timestamp_in_cycle: RD_STORE_LOCAL_TIMESTAMP,
            read_value: rd_read_value,
            write_value: rd_write_value,
        },
    )
}

/// The opening of a row: the accesses, the operands, the decoded fields and flags.
pub struct RowOpening {
    pub queries: (ShuffleRamMemQuery, ShuffleRamMemQuery, ShuffleRamMemQuery),
    pub src1: Register,
    pub src2: Register,
    pub decoded: OptimizedDecoderOutput,
    pub flags_source: BasicFlagsSource,
    pub formats: FormatBits<Boolean>,
}

/// Where the decoder of a row starts: behind the instruction, and behind the check against padding
/// if there is one.
pub open spec fn decoder_start(start: int, perform_delegation: bool) -> int {
    if perform_delegation {
        start + 4
    } else {
        start + 8
    }
}

/// What the opening of a row demands: the instruction at `pc`, not the padding unless delegations
/// match CSRs later on, decoded, with a valid encoding, and the second operand by its format.
pub open spec fn opening_demands(
    start: int,
    pc: Register,
    splitting: (int, int),
    perform_delegation: bool,
    w: spec_fn(Variable) -> int,
    t: TableContents,
) -> bool {
    let opcode = row::opcode_register(start);
    let n = decoder_start(start, perform_delegation);
    let after = n + 11 + splitting.0 + splitting.1;
    &&& row::rom_demands(start, pc, w, t)
    &&& !perform_delegation ==> row::no_unimp_demands(start + 4, opcode, w)
    &&& decoder::decode_demands(n, opcode, splitting, w, t)
    &&& field::residue(w(Variable((n + 9) as usize))) == 0
    &&& selection::is_selected(
        decoder::formats_from(n + 10),
        decoder::imm_from(n, splitting),
        register_at(after + 2),
        register_at(after + 12),
        w,
    )
}

/// How the variables of the opening of a row come about.
pub open spec fn opening_computes(
    start: int,
    pc: Register,
    splitting: (int, int),
    perform_delegation: bool,
    w: spec_fn(Variable) -> int,
    t: TableContents,
    x: OutsideValues,
) -> bool {
    let opcode = row::opcode_register(start);
    let n = decoder_start(start, perform_delegation);
    let after = n + 11 + splitting.0 + splitting.1;
    &&& row::rom_computes(start, pc, w, t)
    &&& !perform_delegation ==> row::no_unimp_computes(start + 4, opcode, w)
    &&& decoder::decode_computes(n, opcode, splitting, w, t)
    &&& accesses_are_filled(after, w, x)
    &&& selection::is_computed_operand(
        decoder::formats_from(n + 10),
        decoder::imm_from(n, splitting),
        register_at(after + 2),
        register_at(after + 12),
        w,
    )
}

/// Reads the instruction at `pc`, decodes it, and allocates the three accesses of the cycle.
pub fn optimized_decode_and_preallocate_mem_queries_for_bytecode_in_rom(
    cs: &mut BasicAssembly,
    pc: Register,
    decode_table_splitting: [usize; 2],
    boolean_keys: DecoderOutputExtraKeysHolder,
    perform_delegation: bool,
) -> (r: RowOpening)
    requires
        decode_table_splitting@[0] <= 30,
        decode_table_splitting@[1] <= 30,
        decode_table_splitting@[0] + decode_table_splitting@[1] >= 1 + NUM_INSTRUCTION_TYPES,
        boolean_keys.well_formed(),
        boolean_keys.major_keys@.len() + flags::greatest_length(flags::minor_lists(boolean_keys))
            + 1 + NUM_INSTRUCTION_TYPES == decode_table_splitting@[0] + decode_table_splitting@[1],
        old(cs).next() + 40 + decode_table_splitting@[0] + decode_table_splitting@[1] <= usize::MAX,
    ensures
        ({
            let start = old(cs).next();
            let parts = (decode_table_splitting@[0] as int, decode_table_splitting@[1] as int);
            let n = decoder_start(start, perform_delegation);
            let after = n + 11 + parts.0 + parts.1;
            &&& decoder::is_decoder_output(r.decoded, n, row::opcode_register(start), parts)
            &&& r.formats == decoder::formats_from(n + 10)
            &&& r.flags_source.keys() == boolean_keys
            &&& r.flags_source.values() == decoder::fresh_bits(n + 16, parts.0 + parts.1 - 7)
            &&& r.queries == queries_at(after, r.decoded.rs1)
            &&& r.src1 == register_at(after)
            &&& r.src2 == register_at(after + 12)
            &&& final(cs).next() == after + 14
            &&& forall|w: spec_fn(Variable) -> int, t: TableContents| #[trigger]
                final(cs).satisfied(w, t) <==> old(cs).satisfied(w, t) && opening_demands(
                    start,
                    pc,
                    parts,
                    perform_delegation,
                    w,
                    t,
                )
            &&& forall|w: spec_fn(Variable) -> int, t: TableContents, x: OutsideValues| #[trigger]
                final(cs).computed(w, t, x) <==> old(cs).computed(w, t, x) && opening_computes(
                    start,
                    pc,
                    parts,
                    perform_delegation,
                    w,
                    t,
                    x,
                )
        }),
{
    let ghost start = cs.next();
    let ghost parts = (decode_table_splitting@[0] as int, decode_table_splitting@[1] as int);
    let next_opcode = read_opcode_from_rom(cs, pc);
    let ghost c1 = *cs;
    if !perform_delegation {
        assert_no_unimp(cs, next_opcode);
    }
    let ghost c2 = *cs;
    assert(forall|w: spec_fn(Variable) -> int, t: TableContents| #[trigger]
        c2.satisfied(w, t) <==> c1.satisfied(w, t) && (!perform_delegation
            ==> row::no_unimp_demands(start + 4, next_opcode, w)));
    let ghost n = cs.next();
    let (invalid_opcode, decoded, formats, other_bits) = OptimizedDecoder::decode(
        &DecoderInput { instruction: next_opcode },
        cs,
        decode_table_splitting,
    );
    let ghost c3 = *cs;
    let invalid = Constraint::weighted_boolean(invalid_opcode, 1);
    cs.add_constraint(invalid);
    let ghost c4 = *cs;
    let flags_source = BasicFlagsSource::new(boolean_keys, other_bits);
    let queries = preallocate_queries(cs, decoded.rs1);
    let ghost c5 = *cs;
    assert(forall|w: spec_fn(Variable) -> int, t: TableContents| #[trigger]
        c5.satisfied(w, t) <==> c4.satisfied(w, t));
    let src2 = select_second_operand(cs, &formats, decoded.imm, queries.1.read_value);
    proof {
        assert forall|w: spec_fn(Variable) -> int, t: TableContents| #[trigger]
            cs.satisfied(w, t) <==> old(cs).satisfied(w, t) && opening_demands(
                start,
                pc,
                parts,
                perform_delegation,
                w,
                t,
            ) by {
            let flag = invalid_opcode.value(w);
            assert(1 * flag == flag);
            assert(cs.satisfied(w, t) <==> c5.satisfied(w, t) && selection::is_selected(
                formats,
                decoded.imm,
                queries.1.read_value,
                src2,
                w,
            ));
            assert(c4.satisfied(w, t) <==> c3.satisfied(w, t) && invalid.value(w) == 0);
            assert(c3.satisfied(w, t) <==> c2.satisfied(w, t) && decoder::decode_demands(
                n,
                next_opcode,
                parts,
                w,
                t,
            ));
            assert(c1.satisfied(w, t) <==> old(cs).satisfied(w, t) && row::rom_demands(
                start,
                pc,
                w,
                t,
            ));
        }
        assert forall|w: spec_fn(Variable) -> int, t: TableContents, x: OutsideValues| #[trigger]
            cs.computed(w, t, x) <==> old(cs).computed(w, t, x) && opening_computes(
                start,
                pc,
                parts,
                perform_delegation,
                w,
                t,
                x,
            ) by {
            assert(cs.computed(w, t, x) <==> c5.computed(w, t, x)
                && selection::is_computed_operand(
                formats,
                decoded.imm,
                queries.1.read_value,
                src2,
                w,
            ));
            assert(c5.computed(w, t, x) <==> c4.computed(w, t, x) && accesses_are_filled(
                c4.next(),
                w,
                x,
            ));
            assert(c4.computed(w, t, x) <==> c3.computed(w, t, x));
            assert(c3.computed(w, t, x) <==> c2.computed(w, t, x) && decoder::decode_computes(
                n,
                next_opcode,
                parts,
                w,
                t,
            ));
            assert(c2.computed(w, t, x) <==> c1.computed(w, t, x) && (!perform_delegation
                ==> row::no_unimp_computes(start + 4, next_opcode, w)));
            assert(c1.computed(w, t, x) <==> old(cs).computed(w, t, x) && row::rom_computes(
                start,
                pc,
                w,
                t,
            ));
        }
    }
    RowOpening { queries, src1: queries.0.read_value, src2, decoded, flags_source, formats }
}

/// What the next program counter demands: four more, with a carry from the lower limb.
pub open spec fn next_pc_demands(start: int, pc: Register, w: spec_fn(Variable) -> int) -> bool {
    let carry = w(Variable(start as usize));
    let next = register_at(start + 1);
    &&& decoder::is_boolean(carry)
    &&& field::residue(w(next.low)) == field::residue(w(pc.low) + 4 - 0x1_0000 * carry)
    &&& 0 <= w(next.low) < power2::pow2(16)
    &&& field::residue(w(next.high)) == field::residue(w(pc.high) + carry)
}

/// How the next program counter is computed.
pub open spec fn next_pc_computes(start: int, pc: Register, w: spec_fn(Variable) -> int) -> bool {
    let carry = w(Variable(start as usize));
    let next = register_at(start + 1);
    &&& carry == assembly::bit(field::residue(w(pc.low) + 4) >= 0x1_0000)
    &&& w(next.low) == field::residue(w(pc.low) + 4 - 0x1_0000 * carry)
    &&& w(next.high) == field::residue(w(pc.high) + carry)
}

/// The program counter of the following instruction.
pub fn calculate_pc_next_no_overflows(cs: &mut BasicAssembly, pc: Register) -> (r: Register)
    requires
        old(cs).next() + 3 <= usize::MAX,
    ensures
        r == register_at(old(cs).next() + 1),
        final(cs).next() == old(cs).next() + 3,
        forall|w: spec_fn(Variable) -> int, t: TableContents| #[trigger]
            final(cs).satisfied(w, t) <==> old(cs).satisfied(w, t) && next_pc_demands(
                old(cs).next(),
                pc,
                w,
            ),
        forall|w: spec_fn(Variable) -> int, t: TableContents, x: OutsideValues| #[trigger]
            final(cs).computed(w, t, x) <==> old(cs).computed(w, t, x) && next_pc_computes(
                old(cs).next(),
                pc,
                w,
            ),
{
    let carry = cs.add_boolean_variable();
    let ghost c0 = *cs;
    let carry_sum = Constraint::weighted(pc.low, 1).plus(&Constraint::constant(4));
    proof {
        assert forall|w: spec_fn(Variable) -> int| #[trigger]
            carry_sum.value(w) == field::residue(w(pc.low) + 4) by {
            assert(1 * w(pc.low) == w(pc.low));
            expression::lemma_combine(w(pc.low), 4);
        }
    }
    if let Some(v) = carry.get_variable() {
        cs.set_values(WitnessRule::Carry(v, carry_sum));
    }
    let ghost c1 = *cs;
    proof {
        assert(forall|w: spec_fn(Variable) -> int, t: TableContents| #[trigger]
            c1.satisfied(w, t) <==> c0.satisfied(w, t));
        assert(forall|w: spec_fn(Variable) -> int, t: TableContents, x: OutsideValues| #[trigger]
            c0.computed(w, t, x) <==> old(cs).computed(w, t, x));
    }
    let sum = Constraint::weighted(pc.low, 1).plus(&Constraint::constant(4));
    let low_expression = sum.minus(&Constraint::weighted_boolean(carry, 0x1_0000));
    let high_expression = Constraint::weighted(pc.high, 1).plus(
        &Constraint::weighted_boolean(carry, 1),
    );
    proof {
        assert forall|w: spec_fn(Variable) -> int| #[trigger]
            low_expression.value(w) == field::residue(
                w(pc.low) + 4 - 0x1_0000 * carry.value(w),
            ) by {
            let (x, k) = (w(pc.low), 0x1_0000 * carry.value(w));
            assert(1 * x == x);
            expression::lemma_combine(x, 4);
            assert(sum.value(w) == field::residue(x + 4));
            expression::lemma_combine(x + 4, k);
        }
        assert forall|w: spec_fn(Variable) -> int| #[trigger]
            high_expression.value(w) == field::residue(w(pc.high) + carry.value(w)) by {
            let (x, k) = (w(pc.high), carry.value(w));
            assert(1 * x == x && 1 * k == k);
            expression::lemma_combine(x, k);
        }
    }
    let low = cs.add_variable_from_constraint(low_expression);
    let ghost c2 = *cs;
    cs.require_invariant(low, 16);
    let ghost c3 = *cs;
    let high = cs.add_variable_from_constraint(high_expression);
    proof {
        assert forall|w: spec_fn(Variable) -> int, t: TableContents| #[trigger]
            cs.satisfied(w, t) <==> old(cs).satisfied(w, t) && next_pc_demands(
                old(cs).next(),
                pc,
                w,
            ) by {
            assert(cs.satisfied(w, t) <==> c3.satisfied(w, t) && field::residue(w(high))
                == high_expression.value(w));
            assert(c3.satisfied(w, t) <==> c2.satisfied(w, t) && 0 <= w(low) < power2::pow2(16));
            assert(c2.satisfied(w, t) <==> c1.satisfied(w, t) && field::residue(w(low))
                == low_expression.value(w));
        }
        assert forall|w: spec_fn(Variable) -> int, t: TableContents, x: OutsideValues| #[trigger]
            cs.computed(w, t, x) <==> old(cs).computed(w, t, x) && next_pc_computes(
                old(cs).next(),
                pc,
                w,
            ) by {
            assert(cs.computed(w, t, x) <==> c3.computed(w, t, x) && w(high)
                == high_expression.value(w));
            assert(c3.computed(w, t, x) <==> c2.computed(w, t, x));
            assert(c2.computed(w, t, x) <==> c1.computed(w, t, x) && w(low)
                == low_expression.value(w));
            assert(c1.computed(w, t, x) <==> c0.computed(w, t, x) && carry.value(w)
                == assembly::bit(carry_sum.value(w) >= 0x1_0000));
        }
    }
    Register { low, high }
}

/// Short of the end of the address space, the next program counter is four more.
pub proof fn law_next_pc_is_four_more(start: int, pc: Register, w: spec_fn(Variable) -> int)
    requires
        forall|v: Variable| 0 <= #[trigger] w(v) < 0x7fff_ffff,
        pc.in_range(w),
        next_pc_demands(start, pc, w),
    ensures
        register_at(start + 1).value(w) == pc.value(w) + 4,
{
    power2::lemma2_to64();
    let carry = w(Variable(start as usize));
    let next = register_at(start + 1);
    prime::lemma_boolean(carry);
    assert(0 <= w(next.low) < 0x1_0000);
    assert(0 <= w(next.high) < 0x7fff_ffff);
    let low = w(pc.low) + 4 - 0x1_0000 * carry;
    assert(-0x1_0000 <= low <= 0x1_0004);
    if low < 0 {
        assert(field::residue(low) == low + 0x7fff_ffff);
    } else {
        assert(field::residue(low) == low);
    }
    assert(w(next.low) == low);
    assert(w(next.high) == w(pc.high) + carry);
}

impl RegisterDecompositionWithSign {
    /// Looks up the sign of a register value.
    pub fn parse_reg(cs: &mut BasicAssembly, reg: Register) -> (r: Self)
        requires
            old(cs).next() + 2 <= usize::MAX,
        ensures
            r.register == reg,
            r.sign_bit == Boolean::Is(Variable(old(cs).next() as usize)),
            final(cs).next() == old(cs).next() + 2,
            forall|w: spec_fn(Variable) -> int, t: TableContents| #[trigger]
                final(cs).satisfied(w, t) <==> old(cs).satisfied(w, t) && sign_demands(
                    old(cs).next(),
                    reg,
                    w,
                    t,
                ),
            forall|w: spec_fn(Variable) -> int, t: TableContents, x: OutsideValues| #[trigger]
                final(cs).computed(w, t, x) <==> old(cs).computed(w, t, x) && sign_computes(
                    old(cs).next(),
                    reg,
                    w,
                    t,
                ),
    {
        let sign_bit = cs.add_boolean_variable();
        let ghost c1 = *cs;
        let high_byte = cs.add_variable();
        let ghost c2 = *cs;
        assert(forall|w: spec_fn(Variable) -> int, t: TableContents| #[trigger]
            c2.satisfied(w, t) <==> c1.satisfied(w, t));
        let key = Constraint::weighted(reg.high, 1);
        if let Some(v) = sign_bit.get_variable() {
            cs.set_values(
                WitnessRule::TableOutputs(
                    TableType::U16GetSignAndHighByte,
                    key,
                    Register { low: v, high: high_byte },
                ),
            );
        }
        let ghost c3 = *cs;
        assert(forall|w: spec_fn(Variable) -> int, t: TableContents| #[trigger]
            c3.satisfied(w, t) <==> c2.satisfied(w, t));
        let limb = Constraint::weighted(reg.high, 1);
        let sign = Constraint::weighted_boolean(sign_bit, 1);
        let byte = Constraint::weighted(high_byte, 1);
        cs.enforce_lookup_tuple_for_fixed_table(
            TableType::U16GetSignAndHighByte,
            limb,
            sign,
            byte,
        );
        proof {
            assert forall|w: spec_fn(Variable) -> int, t: TableContents| #[trigger]
                cs.satisfied(w, t) <==> old(cs).satisfied(w, t) && sign_demands(
                    old(cs).next(),
                    reg,
                    w,
                    t,
                ) by {
                let (x, y, z) = (w(reg.high), sign_bit.value(w), w(high_byte));
                assert(1 * x == x && 1 * y == y && 1 * z == z);
                assert(c3.satisfied(w, t) <==> c1.satisfied(w, t));
            }
            assert forall|w: spec_fn(Variable) -> int, t: TableContents, x: OutsideValues|
                #[trigger] cs.computed(w, t, x) <==> old(cs).computed(w, t, x) && sign_computes(
                    old(cs).next(),
                    reg,
                    w,
                    t,
                ) by {
                assert(1 * w(reg.high) == w(reg.high));
                assert(key.value(w) == field::residue(w(reg.high)));
                assert(cs.computed(w, t, x) <==> c3.computed(w, t, x));
                assert(c2.computed(w, t, x) <==> old(cs).computed(w, t, x));
            }
        }
        RegisterDecompositionWithSign { register: reg, sign_bit }
    }
}

/// How a sign is computed: the table is asked.
pub open spec fn sign_computes(
    start: int,
    reg: Register,
    w: spec_fn(Variable) -> int,
    t: TableContents,
) -> bool {
    t.holds(
        TableType::U16GetSignAndHighByte,
        field::residue(w(reg.high)),
        w(Variable(start as usize)),
        w(Variable((start + 1) as usize)),
    )
}

/// What the lookup of a sign demands.
pub open spec fn sign_demands(
    start: int,
    reg: Register,
    w: spec_fn(Variable) -> int,
    t: TableContents,
) -> bool {
    let sign = w(Variable(start as usize));
    &&& decoder::is_boolean(sign)
    &&& t.holds(
        TableType::U16GetSignAndHighByte,
        field::residue(w(reg.high)),
        field::residue(sign),
        field::residue(w(Variable((start + 1) as usize))),
    )
}

/// What the families read of a decoded instruction.
pub struct BasicDecodingResultWithSigns {
    pub pc_next: Register,
    pub src1: RegisterDecompositionWithSign,
    pub src2: RegisterDecompositionWithSign,
    pub imm: Register,
    pub rs2_index: Constraint,
    pub funct3: Variable,
    pub funct12: Constraint,
}

impl BasicDecodingResultWithSigns {
    pub fn get_pc_next(&self) -> (r: Register)
        ensures
            r == self.pc_next,
    {
        self.pc_next
    }

    pub fn funct3(&self) -> (r: Variable)
        ensures
            r == self.funct3,
    {
        self.funct3
    }

    pub fn get_rs2_index(&self) -> (r: Constraint)
        ensures
            r@ == self.rs2_index@,
    {
        self.rs2_index.duplicate()
    }

    pub fn funct12(&self) -> (r: Constraint)
        ensures
            r@ == self.funct12@,
    {
        self.funct12.duplicate()
    }

    pub fn get_imm(&self) -> (r: Register)
        ensures
            r == self.imm,
    {
        self.imm
    }

    pub fn get_rs1_or_equivalent(&self) -> (r: RegisterDecompositionWithSign)
        ensures
            r == self.src1,
    {
        self.src1
    }

    pub fn get_rs2_or_equivalent(&self) -> (r: RegisterDecompositionWithSign)
        ensures
            r == self.src2,
    {
        self.src2
    }
}

/// A register value that was cut up, without its sign.
#[derive(Clone, Copy, Debug)]
pub struct RegisterDecomposition {
    pub register: Register,
}

/// What the families of a machine without signed operations read of a decoded instruction.
pub struct BasicDecodingResultWithoutSigns {
    pub pc_next: Register,
    pub src1: RegisterDecomposition,
    pub src2: RegisterDecomposition,
    pub rs2_index: Constraint,
    pub imm: Register,
    pub funct3: Variable,
    pub funct12: Constraint,
}

impl BasicDecodingResultWithoutSigns {
    pub fn get_pc_next(&self) -> (r: Register)
        ensures
            r == self.pc_next,
    {
        self.pc_next
    }

    pub fn funct3(&self) -> (r: Variable)
        ensures
            r == self.funct3,
    {
        self.funct3
    }

    pub fn get_rs2_index(&self) -> (r: Constraint)
        ensures
            r@ == self.rs2_index@,
    {
        self.rs2_index.duplicate()
    }

    pub fn funct12(&self) -> (r: Constraint)
        ensures
            r@ == self.funct12@,
    {
        self.funct12.duplicate()
    }

    pub fn get_imm(&self) -> (r: Register)
        ensures
            r == self.imm,
    {
        self.imm
    }

    pub fn get_rs1_or_equivalent(&self) -> (r: RegisterDecomposition)
        ensures
            r == self.src1,
    {
        self.src1
    }

    pub fn get_rs2_or_equivalent(&self) -> (r: RegisterDecomposition)
        ensures
            r == self.src2,
    {
        self.src2
    }
}

/// The three accesses of a cycle follow each other, and the first two leave what they read as it is.
/// The first one goes to the register that it is given; all six registers of the accesses have
/// variables of their own.
pub proof fn law_accesses_of_a_cycle(start: int, rs1: Variable)
    requires
        0 <= start,
        start + 12 <= usize::MAX,
    ensures
        ({
            let (first, second, third) = queries_at(start, rs1);
            &&& first.local_timestamp_in_cycle == 0
            &&& second.local_timestamp_in_cycle == 1
            &&& third.local_timestamp_in_cycle == 2
            &&& first.query_type == (ShuffleRamQueryType::RegisterOnly { register_index: rs1 })
            &&& first.write_value == first.read_value
            &&& second.query_type is RegisterOrRam
            &&& second.write_value == second.read_value
            &&& third.query_type is RegisterOrRam
            &&& third.write_value.low != third.read_value.low
            &&& third.write_value.high != third.read_value.high
            &&& first.read_value.low.0 == start
            &&& first.read_value.high.0 == start + 1
            &&& second.read_value.low.0 == start + 2
            &&& second.read_value.high.0 == start + 3
            &&& third.read_value.low.0 == start + 6
            &&& third.read_value.high.0 == start + 7
            &&& third.write_value.low.0 == start + 8
            &&& third.write_value.high.0 == start + 9
        }),
{
}

/// The sign that is looked up is the uppermost bit of the register.
pub proof fn law_sign_is_right(
    start: int,
    reg: Register,
    w: spec_fn(Variable) -> int,
    t: TableContents,
)
    requires
        forall|v: Variable| 0 <= #[trigger] w(v) < 0x7fff_ffff,
        forall|a: int, b: int, c: int| #[trigger]
            t.holds(TableType::U16GetSignAndHighByte, a, b, c) ==> b == if a >= 0x8000 {
                1int
            } else {
                0int
            },
        reg.in_range(w),
        sign_demands(start, reg, w, t),
    ensures
        w(Variable(start as usize)) == if w(reg.low) + 0x1_0000 * w(reg.high) >= 0x8000_0000 {
            1int
        } else {
            0int
        },
{
    let sign = w(Variable(start as usize));
    field::lemma_residue_small(sign);
    field::lemma_residue_small(w(reg.high));
}

/// The values of the accesses come from outside: the first one reads a value; the second one reads a
/// value at an address; the third one reads a value, writes a value, and has an address.
pub proof fn law_accesses_come_from_outside(
    start: int,
    w: spec_fn(Variable) -> int,
    x: OutsideValues,
)
    requires
        accesses_are_filled(start, w, x),
    ensures
        ({
            let limbs = |i: int|
                (w(Variable((start + i) as usize)), w(Variable((start + i + 1) as usize)));
            &&& limbs(0) == (x.limbs)(Placeholder::ShuffleRamReadValue(0))
            &&& limbs(2) == (x.limbs)(Placeholder::ShuffleRamReadValue(1))
            &&& limbs(4) == (x.limbs)(Placeholder::ShuffleRamAddress(1))
            &&& limbs(6) == (x.limbs)(Placeholder::ShuffleRamReadValue(2))
            &&& limbs(8) == (x.limbs)(Placeholder::ShuffleRamWriteValue(2))
            &&& limbs(10) == (x.limbs)(Placeholder::ShuffleRamAddress(2))
        }),
{
}

/// The values of the accesses are those that their rules give them.
pub proof fn law_rules_of_accesses(
    start: int,
    w: spec_fn(Variable) -> int,
    t: TableContents,
    x: OutsideValues,
)
    ensures
        accesses_are_filled(start, w, x) <==> forall|i: int|
            0 <= i < access_rules(start).len() ==> (#[trigger] access_rules(start)[i]).respected(
                w,
                t,
                x,
            ),
{
    let rules = access_rules(start);
    assert(rules[0].respected(w, t, x) <==> x.fills(
        register_at(start),
        Placeholder::ShuffleRamReadValue(0),
        w,
    ));
    if forall|i: int| 0 <= i < rules.len() ==> (#[trigger] rules[i]).respected(w, t, x) {
        assert(rules[1].respected(w, t, x) && rules[2].respected(w, t, x));
        assert(rules[3].respected(w, t, x) && rules[4].respected(w, t, x));
        assert(rules[5].respected(w, t, x));
    }
}

} // verus!
