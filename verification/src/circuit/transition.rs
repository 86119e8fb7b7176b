//! A machine row as it is built: its opening, the contributions of the instruction families one
//! after the other, and its close.
use crate::bits;
use crate::circuit::assembly::{
    BasicAssembly, OutsideValues, Placeholder, TableContents, TableType,
};
use crate::circuit::decoder;
use crate::circuit::decoder::{FormatBits, NUM_INSTRUCTION_TYPES};
use crate::circuit::expression;
use crate::circuit::expression::{Boolean, Constraint, Register, Variable};
use crate::circuit::flags;
use crate::circuit::flags::{
    BasicFlagsSource, DecoderMajorInstructionFamilyKey, DecoderOutputExtraKeysHolder, ADD_OP_KEY,
    SUB_OP_KEY,
};
use crate::circuit::ops;
use crate::circuit::ops::{
    AddOp, CommonDiffs, NextPcValue, OptimizationContext, RegisterDecompositionWithSign, SubOp,
};
use crate::circuit::row;
use crate::circuit::row::MinimalStateRegistersInMemory;
use crate::circuit::slots;
use crate::circuit::slots::bind_slots;
use crate::circuit::state_transition;
use crate::circuit::state_transition::{
    calculate_pc_next_no_overflows,
    optimized_decode_and_preallocate_mem_queries_for_bytecode_in_rom, BasicDecodingResultWithSigns,
    ShuffleRamMemQuery,
};
use crate::circuit::writeback;
use crate::circuit::writeback::{select_final_pc_value, select_final_rd_value};
use crate::field;
use vstd::arithmetic::power2;
use vstd::prelude::*;

verus! {

/// The number of instruction families.
pub const NUM_FAMILIES: usize = 13;

/// The place of the loads among the families.
pub const LOAD_FAMILY: usize = 10;

/// The place of the stores among the families.
pub const STORE_FAMILY: usize = 11;

/// The families in the order in which they contribute to a row.
pub open spec fn family_order() -> Seq<DecoderMajorInstructionFamilyKey> {
    seq![
        DecoderMajorInstructionFamilyKey::Add,
        DecoderMajorInstructionFamilyKey::Sub,
        DecoderMajorInstructionFamilyKey::Lui,
        DecoderMajorInstructionFamilyKey::AuiPc,
        DecoderMajorInstructionFamilyKey::Binary,
        DecoderMajorInstructionFamilyKey::Mul,
        DecoderMajorInstructionFamilyKey::DivRem,
        DecoderMajorInstructionFamilyKey::Conditional,
        DecoderMajorInstructionFamilyKey::Shift,
        DecoderMajorInstructionFamilyKey::Jump,
        DecoderMajorInstructionFamilyKey::Load,
        DecoderMajorInstructionFamilyKey::Store,
        DecoderMajorInstructionFamilyKey::Csr,
    ]
}

/// The families in the order in which they contribute to a row.
pub fn families_in_order() -> (r: Vec<DecoderMajorInstructionFamilyKey>)
    ensures
        r@ == family_order(),
        r@.len() == NUM_FAMILIES,
{
    let r = vec![
        DecoderMajorInstructionFamilyKey::Add,
        DecoderMajorInstructionFamilyKey::Sub,
        DecoderMajorInstructionFamilyKey::Lui,
        DecoderMajorInstructionFamilyKey::AuiPc,
        DecoderMajorInstructionFamilyKey::Binary,
        DecoderMajorInstructionFamilyKey::Mul,
        DecoderMajorInstructionFamilyKey::DivRem,
        DecoderMajorInstructionFamilyKey::Conditional,
        DecoderMajorInstructionFamilyKey::Shift,
        DecoderMajorInstructionFamilyKey::Jump,
        DecoderMajorInstructionFamilyKey::Load,
        DecoderMajorInstructionFamilyKey::Store,
        DecoderMajorInstructionFamilyKey::Csr,
    ];
    assert(r@ =~= family_order());
    r
}

/// A row under construction: what the families read and write, and what they contributed so far.
pub struct StateTransition {
    pub initial_state: MinimalStateRegistersInMemory,
    pub decoder_output: BasicDecodingResultWithSigns,
    pub flags_source: BasicFlagsSource,
    pub formats: FormatBits<Boolean>,
    pub rd: Constraint,
    /// The access of the first source register.
    pub rs1_query: ShuffleRamMemQuery,
    /// The access of the second source register, which a load makes one of memory.
    pub rs2_or_mem_load_query: ShuffleRamMemQuery,
    /// The access of the destination register, which a store makes one of memory.
    pub rd_or_mem_store_query: ShuffleRamMemQuery,
    pub opt_ctx: OptimizationContext,
    pub application_results: Vec<CommonDiffs>,
}

/// Where the variables of a row lie. The program counter comes first, then the opening.
pub open spec fn opening_start(start: int) -> int {
    start + 2
}

/// Where the variables behind the opening start.
pub open spec fn tail_start(start: int, splitting: (int, int), perform_delegation: bool) -> int {
    state_transition::decoder_start(opening_start(start), perform_delegation) + 11 + splitting.0
        + splitting.1 + 14
}

/// What the row demands before any family has contributed: the program counter has a lower limb of
/// 16 bits, the instruction it points to is decoded, the next program counter is four more, and
/// the operands have their signs.
#[verifier::opaque]
pub open spec fn base_demands(
    start: int,
    splitting: (int, int),
    perform_delegation: bool,
    w: spec_fn(Variable) -> int,
    t: TableContents,
) -> bool {
    let pc = state_transition::register_at(start);
    let tail = tail_start(start, splitting, perform_delegation);
    &&& 0 <= w(pc.low) < power2::pow2(16)
    &&& state_transition::opening_demands(
        opening_start(start),
        pc,
        splitting,
        perform_delegation,
        w,
        t,
    )
    &&& state_transition::next_pc_demands(tail, pc, w)
    &&& state_transition::sign_demands(tail + 3, operand1(start, splitting, perform_delegation), w, t)
    &&& state_transition::sign_demands(tail + 5, operand2(start, splitting, perform_delegation), w, t)
}

/// How the variables of the row come about before any family has contributed: the program counter
/// comes from outside, and so do the accesses; the rest is computed.
#[verifier::opaque]
pub open spec fn base_computes(
    start: int,
    splitting: (int, int),
    perform_delegation: bool,
    w: spec_fn(Variable) -> int,
    t: TableContents,
    x: OutsideValues,
) -> bool {
    let pc = state_transition::register_at(start);
    let tail = tail_start(start, splitting, perform_delegation);
    let a = operand1(start, splitting, perform_delegation);
    let b = operand2(start, splitting, perform_delegation);
    &&& x.fills(pc, Placeholder::PcInit, w)
    &&& state_transition::opening_computes(
        opening_start(start),
        pc,
        splitting,
        perform_delegation,
        w,
        t,
        x,
    )
    &&& state_transition::next_pc_computes(tail, pc, w)
    &&& state_transition::sign_computes(tail + 3, a, w, t)
    &&& state_transition::sign_computes(tail + 5, b, w, t)
}

/// How the result of the slot of addition and subtraction is computed.
pub open spec fn sums_are_computed(
    row: StateTransition,
    add_flag: Boolean,
    sub_flag: Boolean,
    w: spec_fn(Variable) -> int,
) -> bool {
    let a = row.decoder_output.src1.register;
    let b = row.decoder_output.src2.register;
    let slot = row.opt_ctx.slots()[0];
    &&& add_flag.value(w) == 1 ==> ops::sum_rule(a, b, false, add_flag, slot).is_computed(w)
    &&& sub_flag.value(w) == 1 ==> ops::sum_rule(a, b, true, sub_flag, slot).is_computed(w)
}

/// The register with the first operand.
pub open spec fn operand1(
    start: int,
    splitting: (int, int),
    perform_delegation: bool,
) -> Register {
    state_transition::register_at(tail_start(start, splitting, perform_delegation) - 14)
}

/// The register with the second operand.
pub open spec fn operand2(
    start: int,
    splitting: (int, int),
    perform_delegation: bool,
) -> Register {
    state_transition::register_at(tail_start(start, splitting, perform_delegation) - 2)
}

/// Whether a row with variables from `start` on has just been opened: its operands, fields, flags
/// and accesses are those of the opening, and addition and subtraction have contributed.
pub open spec fn is_opened(
    row: StateTransition,
    start: int,
    splitting: (int, int),
    keys: DecoderOutputExtraKeysHolder,
    perform_delegation: bool,
) -> bool {
    let n = state_transition::decoder_start(opening_start(start), perform_delegation);
    let opcode = row::opcode_register(opening_start(start));
    let tail = tail_start(start, splitting, perform_delegation);
    let queries = state_transition::queries_at(tail - 14, Variable((n + 8) as usize));
    let a = operand1(start, splitting, perform_delegation);
    let b = operand2(start, splitting, perform_delegation);
    let result = state_transition::register_at(tail + 7);
    let add_flag = row.flags_source.values()[flags::index_of(keys.major_keys@, ADD_OP_KEY)];
    let sub_flag = row.flags_source.values()[flags::index_of(keys.major_keys@, SUB_OP_KEY)];
    &&& row.initial_state.pc == state_transition::register_at(start)
    &&& row.decoder_output.pc_next == state_transition::register_at(tail + 1)
    &&& row.decoder_output.src1.register == a
    &&& row.decoder_output.src1.sign_bit == Boolean::Is(Variable((tail + 3) as usize))
    &&& row.decoder_output.src2.register == b
    &&& row.decoder_output.src2.sign_bit == Boolean::Is(Variable((tail + 5) as usize))
    &&& row.decoder_output.imm == decoder::imm_from(n, splitting)
    &&& decoder::is_rs2(row.decoder_output.rs2_index, n, opcode)
    &&& row.decoder_output.funct3 == decoder::chunks_from(n).funct3
    &&& decoder::is_funct12(row.decoder_output.funct12, n, opcode)
    &&& row.flags_source.keys() == keys
    &&& row.flags_source.values() == decoder::fresh_bits(n + 16, splitting.0 + splitting.1 - 7)
    &&& row.formats == decoder::formats_from(n + 10)
    &&& decoder::is_rd(row.rd, n, opcode)
    &&& row.rs1_query == queries.0
    &&& row.rs2_or_mem_load_query == queries.1
    &&& row.rd_or_mem_store_query == queries.2
    &&& row.opt_ctx.slots().len() == 1
    &&& ops::fresh_slot(
        tail + 7,
        seq![
            ops::relation_of(a, b, false, result, add_flag),
            ops::relation_of(a, b, true, result, sub_flag),
        ],
        row.opt_ctx.slots()[0],
    )
    &&& row.application_results@.len() == 2
    &&& ops::is_arithmetic_outcome(row.application_results@[0], add_flag, result)
    &&& ops::is_arithmetic_outcome(row.application_results@[1], sub_flag, result)
}

/// Opens a row and lets addition and subtraction contribute. The other families follow in their
/// order: see `next_family`, `record` and `finish`.
#[verifier::rlimit(40)]
#[verifier::spinoff_prover]
pub fn optimized_base_isa_state_transition(
    cs: &mut BasicAssembly,
    decode_table_splitting: [usize; 2],
    boolean_keys: DecoderOutputExtraKeysHolder,
    perform_delegation: bool,
) -> (r: StateTransition)
    requires
        decode_table_splitting@[0] <= 30,
        decode_table_splitting@[1] <= 30,
        decode_table_splitting@[0] + decode_table_splitting@[1] >= 1 + NUM_INSTRUCTION_TYPES,
        boolean_keys.well_formed(),
        boolean_keys.major_keys@.contains(ADD_OP_KEY),
        boolean_keys.major_keys@.contains(SUB_OP_KEY),
        boolean_keys.major_keys@.len() + flags::greatest_length(flags::minor_lists(boolean_keys))
            + 1 + NUM_INSTRUCTION_TYPES == decode_table_splitting@[0] + decode_table_splitting@[1],
        old(cs).next() + 60 + decode_table_splitting@[0] + decode_table_splitting@[1] <= usize::MAX,
    ensures
        ({
            let start = old(cs).next();
            let parts = (decode_table_splitting@[0] as int, decode_table_splitting@[1] as int);
            &&& is_opened(r, start, parts, boolean_keys, perform_delegation)
            &&& final(cs).next() == tail_start(start, parts, perform_delegation) + 11
            &&& forall|w: spec_fn(Variable) -> int, t: TableContents| #[trigger]
                final(cs).satisfied(w, t) <==> old(cs).satisfied(w, t) && base_demands(
                    start,
                    parts,
                    perform_delegation,
                    w,
                    t,
                ) && ops::slot_is_boolean(
                    r.opt_ctx.slots()[0].carry,
                    r.opt_ctx.slots()[0].overflow,
                    w,
                )
            &&& forall|w: spec_fn(Variable) -> int, t: TableContents, x: OutsideValues| #[trigger]
                final(cs).computed(w, t, x) <==> old(cs).computed(w, t, x) && base_computes(
                    start,
                    parts,
                    perform_delegation,
                    w,
                    t,
                    x,
                ) && sums_are_computed(
                    r,
                    r.flags_source.values()[flags::index_of(
                        boolean_keys.major_keys@,
                        ADD_OP_KEY,
                    )],
                    r.flags_source.values()[flags::index_of(
                        boolean_keys.major_keys@,
                        SUB_OP_KEY,
                    )],
                    w,
                )
        }),
{
    proof {
        reveal(base_demands);
        reveal(base_computes);
    }
    let ghost start = cs.next();
    let ghost parts = (decode_table_splitting@[0] as int, decode_table_splitting@[1] as int);
    let initial_state = MinimalStateRegistersInMemory::initialize(cs);
    let ghost c1 = *cs;
    assert(forall|w: spec_fn(Variable) -> int, t: TableContents| #[trigger]
        c1.satisfied(w, t) <==> old(cs).satisfied(w, t));
    let pc = *initial_state.get_pc();
    cs.require_invariant(pc.low, 16);
    let ghost c2 = *cs;
    let opening = optimized_decode_and_preallocate_mem_queries_for_bytecode_in_rom(
        cs,
        pc,
        decode_table_splitting,
        boolean_keys,
        perform_delegation,
    );
    let ghost c3 = *cs;
    let next_pc = calculate_pc_next_no_overflows(cs, pc);
    let ghost c4 = *cs;
    let mut opt_ctx = OptimizationContext::new();
    let src1 = RegisterDecompositionWithSign::parse_reg(cs, opening.src1);
    let ghost c5 = *cs;
    let src2 = RegisterDecompositionWithSign::parse_reg(cs, opening.src2);
    let ghost c6 = *cs;
    let mut application_results: Vec<CommonDiffs> = Vec::new();
    let add = AddOp::apply(cs, &src1, &src2, &opening.flags_source, &mut opt_ctx);
    application_results.push(add);
    let ghost c7 = *cs;
    let sub = SubOp::apply(cs, &src1, &src2, &opening.flags_source, &mut opt_ctx);
    application_results.push(sub);
    proof {
        let slot = opt_ctx.slots()[0];
        let tail = tail_start(start, parts, perform_delegation);
        assert(c6.next() == tail + 7);
        assert(slot.result == state_transition::register_at(tail + 7));
        assert(slot.relations@ =~= seq![
            ops::relation_of(
                src1.register,
                src2.register,
                false,
                state_transition::register_at(tail + 7),
                add.exec_flag,
            ),
            ops::relation_of(
                src1.register,
                src2.register,
                true,
                state_transition::register_at(tail + 7),
                sub.exec_flag,
            ),
        ]);
        assert forall|w: spec_fn(Variable) -> int, t: TableContents| #[trigger]
            cs.satisfied(w, t) <==> old(cs).satisfied(w, t) && base_demands(
                start,
                parts,
                perform_delegation,
                w,
                t,
            ) && ops::slot_is_boolean(slot.carry, slot.overflow, w) by {
            assert(cs.satisfied(w, t) <==> c7.satisfied(w, t));
            assert(c7.satisfied(w, t) <==> c6.satisfied(w, t) && ops::slot_is_boolean(
                slot.carry,
                slot.overflow,
                w,
            ));
            assert(c6.satisfied(w, t) <==> c5.satisfied(w, t) && state_transition::sign_demands(
                tail + 5,
                opening.src2,
                w,
                t,
            ));
            assert(c5.satisfied(w, t) <==> c4.satisfied(w, t) && state_transition::sign_demands(
                tail + 3,
                opening.src1,
                w,
                t,
            ));
            assert(c4.satisfied(w, t) <==> c3.satisfied(w, t) && state_transition::next_pc_demands(
                tail,
                pc,
                w,
            ));
            assert(c3.satisfied(w, t) <==> c2.satisfied(w, t) && state_transition::opening_demands(
                start + 2,
                pc,
                parts,
                perform_delegation,
                w,
                t,
            ));
            assert(c2.satisfied(w, t) <==> c1.satisfied(w, t) && 0 <= w(pc.low)
                < power2::pow2(16));
        }
    }
    proof {
        let slot = opt_ctx.slots()[0];
        let tail = tail_start(start, parts, perform_delegation);
        assert forall|w: spec_fn(Variable) -> int, t: TableContents, x: OutsideValues| #[trigger]
            cs.computed(w, t, x) <==> old(cs).computed(w, t, x) && base_computes(
                start,
                parts,
                perform_delegation,
                w,
                t,
                x,
            ) && (add.exec_flag.value(w) == 1 ==> ops::sum_rule(
                src1.register,
                src2.register,
                false,
                add.exec_flag,
                slot,
            ).is_computed(w)) && (sub.exec_flag.value(w) == 1 ==> ops::sum_rule(
                src1.register,
                src2.register,
                true,
                sub.exec_flag,
                slot,
            ).is_computed(w)) by {
            assert(c6.computed(w, t, x) <==> c5.computed(w, t, x)
                && state_transition::sign_computes(tail + 5, opening.src2, w, t));
            assert(c5.computed(w, t, x) <==> c4.computed(w, t, x)
                && state_transition::sign_computes(tail + 3, opening.src1, w, t));
            assert(c4.computed(w, t, x) <==> c3.computed(w, t, x)
                && state_transition::next_pc_computes(tail, pc, w));
            assert(c3.computed(w, t, x) <==> c2.computed(w, t, x)
                && state_transition::opening_computes(
                start + 2,
                pc,
                parts,
                perform_delegation,
                w,
                t,
                x,
            ));
            assert(c2.computed(w, t, x) <==> c1.computed(w, t, x));
        }
    }
    let decoder_output = BasicDecodingResultWithSigns {
        pc_next: next_pc,
        src1,
        src2,
        imm: opening.decoded.imm,
        rs2_index: opening.decoded.rs2,
        funct3: opening.decoded.funct3,
        funct12: opening.decoded.funct12,
    };
    StateTransition {
        initial_state,
        decoder_output,
        flags_source: opening.flags_source,
        formats: opening.formats,
        rd: opening.decoded.rd,
        rs1_query: opening.queries.0,
        rs2_or_mem_load_query: opening.queries.1,
        rd_or_mem_store_query: opening.queries.2,
        opt_ctx,
        application_results,
    }
}

impl StateTransition {
    /// The family whose turn it is; none once all have contributed.
    pub fn next_family(&self) -> (r: Option<DecoderMajorInstructionFamilyKey>)
        ensures
            r == if self.application_results@.len() < NUM_FAMILIES {
                Some(family_order()[self.application_results@.len() as int])
            } else {
                None::<DecoderMajorInstructionFamilyKey>
            },
    {
        let order = families_in_order();
        if self.application_results.len() < order.len() {
            Some(order[self.application_results.len()])
        } else {
            None
        }
    }

    /// Takes the contribution of the family whose turn it is. Where the instruction is a load, the
    /// second access goes to memory; where it is a store, the third one does. To which address of
    /// memory they go is for those families to demand.
    pub fn record(&mut self, diffs: CommonDiffs)
        ensures
            final(self).application_results@ == old(self).application_results@.push(diffs),
            final(self).initial_state == old(self).initial_state,
            final(self).decoder_output == old(self).decoder_output,
            final(self).flags_source == old(self).flags_source,
            final(self).formats == old(self).formats,
            final(self).rd == old(self).rd,
            final(self).rs1_query == old(self).rs1_query,
            final(self).rs2_or_mem_load_query == if old(self).application_results@.len()
                == LOAD_FAMILY {
                old(self).rs2_or_mem_load_query.in_memory_where(diffs.exec_flag)
            } else {
                old(self).rs2_or_mem_load_query
            },
            final(self).rd_or_mem_store_query == if old(self).application_results@.len()
                == STORE_FAMILY {
                old(self).rd_or_mem_store_query.in_memory_where(diffs.exec_flag)
            } else {
                old(self).rd_or_mem_store_query
            },
            final(self).opt_ctx == old(self).opt_ctx,
    {
        if self.application_results.len() == LOAD_FAMILY {
            self.rs2_or_mem_load_query = self.rs2_or_mem_load_query.use_memory_where(
                diffs.exec_flag,
            );
        }
        if self.application_results.len() == STORE_FAMILY {
            self.rd_or_mem_store_query = self.rd_or_mem_store_query.use_memory_where(
                diffs.exec_flag,
            );
        }
        self.application_results.push(diffs);
    }

    /// Closes the row: turns the collected relations into constraints, chooses the value of the
    /// destination register and the next program counter from what the families contributed, and
    /// binds the accesses to the registers that the instruction names.
    pub fn finish(self, cs: &mut BasicAssembly) -> (r: (
        MinimalStateRegistersInMemory,
        MinimalStateRegistersInMemory,
        Register,
    ))
        requires
            self.application_results@.len() == NUM_FAMILIES,
            writeback::candidates_are_linear(self.application_results@),
            self.rd.is_linear(),
            self.decoder_output.rs2_index.is_linear(),
            old(cs).next() + 9 <= usize::MAX,
        ensures
            ({
                let n = old(cs).next();
                &&& r.0 == self.initial_state
                &&& r.2 == state_transition::register_at(n)
                &&& r.1.pc == state_transition::register_at(n + 2)
                &&& final(cs).next() == n + 9
                &&& forall|w: spec_fn(Variable) -> int, t: TableContents| #[trigger]
                    final(cs).satisfied(w, t) <==> old(cs).satisfied(w, t) && close_demands(
                        n,
                        self,
                        w,
                    ) && (forall|i: int|
                        0 <= i < self.opt_ctx.slots().len() ==> (
                        #[trigger] self.opt_ctx.slots()[i]).demands(w))
                &&& forall|w: spec_fn(Variable) -> int, t: TableContents, x: OutsideValues| #[trigger]
                    final(cs).computed(w, t, x) <==> old(cs).computed(w, t, x) && close_computes(
                        n,
                        self,
                        w,
                    )
            }),
    {
        let ghost n = cs.next();
        self.opt_ctx.enforce_all(cs);
        let ghost c1 = *cs;
        let rd_value = select_final_rd_value(cs, &self.application_results);
        let ghost c2 = *cs;
        let pc = select_final_pc_value(
            cs,
            &self.application_results,
            self.decoder_output.pc_next,
        );
        let ghost c3 = *cs;
        bind_slots(
            cs,
            &self.formats,
            &self.rd,
            &self.decoder_output.rs2_index,
            &self.rs2_or_mem_load_query,
            &self.rd_or_mem_store_query,
            rd_value,
        );
        proof {
            assert forall|w: spec_fn(Variable) -> int, t: TableContents| #[trigger]
                cs.satisfied(w, t) <==> old(cs).satisfied(w, t) && close_demands(n, self, w) && (
                forall|i: int|
                    0 <= i < self.opt_ctx.slots().len() ==> (
                    #[trigger] self.opt_ctx.slots()[i]).demands(w)) by {
                assert(cs.satisfied(w, t) <==> c3.satisfied(w, t) && slots::slot_demands(
                    n + 4,
                    self.formats,
                    self.rd,
                    self.decoder_output.rs2_index,
                    self.rs2_or_mem_load_query,
                    self.rd_or_mem_store_query,
                    rd_value,
                    w,
                ));
                assert(c2.satisfied(w, t) <==> c1.satisfied(w, t) && field::residue(
                    w(rd_value.low),
                ) == field::residue(writeback::rd_sum(self.application_results@, false, w))
                    && field::residue(w(rd_value.high)) == field::residue(
                    writeback::rd_sum(self.application_results@, true, w),
                ));
            }
            assert forall|w: spec_fn(Variable) -> int, t: TableContents, x: OutsideValues|
                #[trigger] cs.computed(w, t, x) <==> old(cs).computed(w, t, x) && close_computes(
                    n,
                    self,
                    w,
                ) by {
                assert(cs.computed(w, t, x) <==> c3.computed(w, t, x) && slots::slot_computes(
                    n + 4,
                    self.formats,
                    self.rd,
                    rd_value,
                    w,
                ));
                assert(c2.computed(w, t, x) <==> c1.computed(w, t, x) && w(rd_value.low)
                    == field::residue(writeback::rd_sum(self.application_results@, false, w))
                    && w(rd_value.high) == field::residue(
                    writeback::rd_sum(self.application_results@, true, w),
                ));
                assert(c1.computed(w, t, x) <==> old(cs).computed(w, t, x));
            }
        }
        (self.initial_state, MinimalStateRegistersInMemory { pc }, rd_value)
    }
}

/// What the close of a row demands: the destination value and the next program counter are chosen
/// from what the families contributed, and the accesses are bound.
pub open spec fn close_demands(
    start: int,
    row: StateTransition,
    w: spec_fn(Variable) -> int,
) -> bool {
    &&& choice_demands(start, row.application_results@, row.decoder_output.pc_next, w)
    &&& slots::slot_demands(
        start + 4,
        row.formats,
        row.rd,
        row.decoder_output.rs2_index,
        row.rs2_or_mem_load_query,
        row.rd_or_mem_store_query,
        state_transition::register_at(start),
        w,
    )
}

/// How the variables of the close of a row are computed.
pub open spec fn close_computes(
    start: int,
    row: StateTransition,
    w: spec_fn(Variable) -> int,
) -> bool {
    let rd = state_transition::register_at(start);
    let pc = state_transition::register_at(start + 2);
    let results = row.application_results@;
    let default_pc = row.decoder_output.pc_next;
    &&& w(rd.low) == field::residue(writeback::rd_sum(results, false, w))
    &&& w(rd.high) == field::residue(writeback::rd_sum(results, true, w))
    &&& w(pc.low) == field::residue(writeback::pc_sum(results, default_pc.low, false, w))
    &&& w(pc.high) == field::residue(writeback::pc_sum(results, default_pc.high, true, w))
    &&& slots::slot_computes(start + 4, row.formats, row.rd, rd, w)
}

/// What the choice of the destination value and of the next program counter demands.
pub open spec fn choice_demands(
    start: int,
    results: Seq<CommonDiffs>,
    default_pc: Register,
    w: spec_fn(Variable) -> int,
) -> bool {
    let rd = state_transition::register_at(start);
    let pc = state_transition::register_at(start + 2);
    &&& field::residue(w(rd.low)) == field::residue(writeback::rd_sum(results, false, w))
    &&& field::residue(w(rd.high)) == field::residue(writeback::rd_sum(results, true, w))
    &&& field::residue(w(pc.low)) == field::residue(
        writeback::pc_sum(results, default_pc.low, false, w),
    )
    &&& field::residue(w(pc.high)) == field::residue(
        writeback::pc_sum(results, default_pc.high, true, w),
    )
}

/// A row whose instruction is an addition writes the sum of its operands to the destination
/// register, and one whose instruction is a subtraction the difference, both modulo `2^32`.
pub proof fn law_row_adds_and_subtracts(
    row: StateTransition,
    slot_start: int,
    close_start: int,
    add_flag: Boolean,
    sub_flag: Boolean,
    subtract: bool,
    w: spec_fn(Variable) -> int,
)
    requires
        forall|v: Variable| 0 <= #[trigger] w(v) < 0x7fff_ffff,
        row.application_results@.len() == NUM_FAMILIES,
        row.opt_ctx.slots().len() > 0,
        ops::fresh_slot(
            slot_start,
            seq![
                ops::relation_of(
                    row.decoder_output.src1.register,
                    row.decoder_output.src2.register,
                    false,
                    state_transition::register_at(slot_start),
                    add_flag,
                ),
                ops::relation_of(
                    row.decoder_output.src1.register,
                    row.decoder_output.src2.register,
                    true,
                    state_transition::register_at(slot_start),
                    sub_flag,
                ),
            ],
            row.opt_ctx.slots()[0],
        ),
        ops::slot_is_boolean(row.opt_ctx.slots()[0].carry, row.opt_ctx.slots()[0].overflow, w),
        row.opt_ctx.slots()[0].demands(w),
        ops::is_arithmetic_outcome(
            row.application_results@[0],
            add_flag,
            state_transition::register_at(slot_start),
        ),
        ops::is_arithmetic_outcome(
            row.application_results@[1],
            sub_flag,
            state_transition::register_at(slot_start),
        ),
        add_flag.value(w) == if subtract {
            0int
        } else {
            1
        },
        sub_flag.value(w) == if subtract {
            1int
        } else {
            0
        },
        forall|i: int|
            2 <= i < NUM_FAMILIES ==> writeback::is_silent(
                #[trigger] row.application_results@[i],
                w,
            ),
        row.decoder_output.src1.register.in_range(w),
        row.decoder_output.src2.register.in_range(w),
        choice_demands(close_start, row.application_results@, row.decoder_output.pc_next, w),
    ensures
        ({
            let a = row.decoder_output.src1.register.value(w);
            let b = row.decoder_output.src2.register.value(w);
            state_transition::register_at(close_start).value(w) == bits::wrap32(
                if subtract {
                    a - b
                } else {
                    a + b
                },
            )
        }),
        state_transition::register_at(close_start).in_range(w),
{
    let slot = row.opt_ctx.slots()[0];
    let results = row.application_results@;
    let active: int = if subtract {
        1
    } else {
        0
    };
    ops::law_add_and_sub_are_wrapping(
        slot,
        active,
        row.decoder_output.src1.register,
        row.decoder_output.src2.register,
        subtract,
        w,
    );
    assert forall|i: int| 0 <= i < results.len() && i != active implies writeback::is_silent(
        #[trigger] results[i],
        w,
    ) by {}
    writeback::law_rd_is_the_active_one(results, active, false, w);
    writeback::law_rd_is_the_active_one(results, active, true, w);
    let result = slot.result;
    let rd = state_transition::register_at(close_start);
    assert(0 <= w(rd.low) < 0x7fff_ffff && 0 <= w(rd.high) < 0x7fff_ffff);
    assert(0 <= w(result.low) < 0x7fff_ffff && 0 <= w(result.high) < 0x7fff_ffff);
    lemma_single_candidate(results[active], result, false, w);
    lemma_single_candidate(results[active], result, true, w);
    field::lemma_residue_small(w(rd.low));
    field::lemma_residue_small(w(rd.high));
    field::lemma_residue_small(w(result.low));
    field::lemma_residue_small(w(result.high));
}

/// The one candidate of an active arithmetic family is its result.
proof fn lemma_single_candidate(
    diffs: CommonDiffs,
    result: Register,
    high: bool,
    w: spec_fn(Variable) -> int,
)
    requires
        ops::is_arithmetic_outcome(diffs, diffs.exec_flag, result),
        diffs.exec_flag.value(w) == 1,
        0 <= w(result.low) < 0x7fff_ffff,
        0 <= w(result.high) < 0x7fff_ffff,
    ensures
        writeback::candidates_sum(diffs.rd_value@, high, w) == if high {
            w(result.high)
        } else {
            w(result.low)
        },
{
    let candidates = diffs.rd_value@;
    assert(candidates.drop_last() =~= Seq::<ops::RdCandidate>::empty());
    assert(writeback::candidates_sum(candidates.drop_last(), high, w) == 0);
    assert(candidates.last() == candidates[0]);
    field::lemma_residue_small(w(result.low));
    field::lemma_residue_small(w(result.high));
    assert(candidates[0].low.value(w) == w(result.low));
    assert(candidates[0].high.value(w) == w(result.high));
    assert(1 * w(result.low) == w(result.low));
    assert(1 * w(result.high) == w(result.high));
}

/// The signs of the two operands of an opened row are the uppermost bits of these operands.
pub proof fn law_signs_of_operands(
    row: StateTransition,
    start: int,
    splitting: (int, int),
    keys: DecoderOutputExtraKeysHolder,
    perform_delegation: bool,
    w: spec_fn(Variable) -> int,
    t: TableContents,
)
    requires
        forall|v: Variable| 0 <= #[trigger] w(v) < 0x7fff_ffff,
        forall|a: int, b: int, c: int| #[trigger]
            t.holds(TableType::U16GetSignAndHighByte, a, b, c) ==> b == if a >= 0x8000 {
                1int
            } else {
                0int
            },
        is_opened(row, start, splitting, keys, perform_delegation),
        base_demands(start, splitting, perform_delegation, w, t),
        row.decoder_output.src1.register.in_range(w),
        row.decoder_output.src2.register.in_range(w),
    ensures
        row.decoder_output.src1.sign_bit.value(w) == 1
            <==> row.decoder_output.src1.register.value(w) >= 0x8000_0000,
        row.decoder_output.src1.sign_bit.value(w) == 0
            <==> row.decoder_output.src1.register.value(w) < 0x8000_0000,
        row.decoder_output.src2.sign_bit.value(w) == 1
            <==> row.decoder_output.src2.register.value(w) >= 0x8000_0000,
        row.decoder_output.src2.sign_bit.value(w) == 0
            <==> row.decoder_output.src2.register.value(w) < 0x8000_0000,
{
    reveal(base_demands);
    let tail = tail_start(start, splitting, perform_delegation);
    state_transition::law_sign_is_right(tail + 3, row.decoder_output.src1.register, w, t);
    state_transition::law_sign_is_right(tail + 5, row.decoder_output.src2.register, w, t);
}

/// A closed row with one active family goes on where that family says, or with the default; and
/// where that family alone speaks, with one of its candidates, the destination value is that
/// candidate.
pub proof fn law_closed_row_follows_the_active_family(
    start: int,
    results: Seq<CommonDiffs>,
    default_pc: Register,
    active: int,
    chosen: int,
    w: spec_fn(Variable) -> int,
)
    requires
        forall|v: Variable| 0 <= #[trigger] w(v) < 0x7fff_ffff,
        choice_demands(start, results, default_pc, w),
        0 <= active < results.len(),
        writeback::one_family(results, active, w),
    ensures
        ({
            let next = Register {
                low: Variable((start + 2) as usize),
                high: Variable((start + 3) as usize),
            };
            next.value(w) == match results[active].new_pc_value {
                NextPcValue::Default => default_pc.value(w),
                NextPcValue::Custom(pc) => pc.value(w),
            }
        }),
        ({
            let candidates = results[active].rd_value@;
            (forall|i: int|
                0 <= i < results.len() && i != active ==> writeback::is_silent(
                    #[trigger] results[i],
                    w,
                )) && 0 <= chosen < candidates.len() && (forall|k: int|
                0 <= k < candidates.len() ==> (#[trigger] candidates[k]).flag.value(w) == if k
                    == chosen {
                    1int
                } else {
                    0int
                }) ==> w(Variable(start as usize)) == candidates[chosen].low.value(w) && w(
                Variable((start + 1) as usize),
            ) == candidates[chosen].high.value(w)
        }),
{
    let next = state_transition::register_at(start + 2);
    writeback::law_next_pc_is_the_active_one(results, active, default_pc.low, false, w);
    writeback::law_next_pc_is_the_active_one(results, active, default_pc.high, true, w);
    assert(0 <= w(next.low) < 0x7fff_ffff && 0 <= w(next.high) < 0x7fff_ffff);
    field::lemma_residue_small(w(next.low));
    field::lemma_residue_small(w(next.high));
    match results[active].new_pc_value {
        NextPcValue::Default => {
            field::lemma_residue_small(w(default_pc.low));
            field::lemma_residue_small(w(default_pc.high));
        },
        NextPcValue::Custom(pc) => {
            field::lemma_residue_small(w(pc.low));
            field::lemma_residue_small(w(pc.high));
        },
    }
    let candidates = results[active].rd_value@;
    if (forall|i: int|
        0 <= i < results.len() && i != active ==> writeback::is_silent(#[trigger] results[i], w))
        && 0 <= chosen < candidates.len() && (forall|k: int|
        0 <= k < candidates.len() ==> (#[trigger] candidates[k]).flag.value(w) == if k == chosen {
            1int
        } else {
            0int
        }) {
        writeback::law_rd_is_the_active_one(results, active, false, w);
        writeback::law_rd_is_the_active_one(results, active, true, w);
        writeback::law_candidates_select(candidates, chosen, w);
        field::lemma_residue_small(w(Variable(start as usize)));
        field::lemma_residue_small(w(Variable((start + 1) as usize)));
        field::lemma_residue_absorb(expression::sum_of(candidates[chosen].low@, w), 0);
        field::lemma_residue_absorb(expression::sum_of(candidates[chosen].high@, w), 0);
    }
}

} // verus!
