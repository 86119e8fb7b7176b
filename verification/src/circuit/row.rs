//! The opening of a machine row: the program counter, the instruction it points to, its decoding,
//! and the three memory accesses of a cycle.
use crate::circuit::assembly;
use crate::circuit::assembly::{
    BasicAssembly, OutsideValues, Placeholder, TableContents, TableType, WitnessRule,
};
use crate::circuit::decoder;
use crate::circuit::expression;
use crate::circuit::expression::{Boolean, Constraint, Register, Variable};
use crate::field;
use crate::prime;
use std::collections::BTreeMap;
use vstd::prelude::*;

verus! {

/// The lower half of the instruction that no program contains, and that pads its memory.
pub const UNIMP_LOW: u32 = 0x1073;

/// The upper half of that instruction.
pub const UNIMP_HIGH: u32 = 0xc000;

/// The first access of a cycle.
pub const RS1_LOAD_LOCAL_TIMESTAMP: u32 = 0;

/// The second access of a cycle.
pub const RS2_LOAD_LOCAL_TIMESTAMP: u32 = 1;

/// The third access of a cycle.
pub const RD_STORE_LOCAL_TIMESTAMP: u32 = 2;

/// Which CSRs a machine state provides for.
pub struct CSRUseProperties {
    pub standard_csrs: Vec<u16>,
    pub allow_non_determinism_csr: bool,
    pub support_mstatus: bool,
}

/// The state that one row hands to the next: the program counter alone. Registers and memory are
/// tied together by the memory accesses.
#[derive(Clone, Copy, Debug)]
pub struct MinimalStateRegistersInMemory {
    pub pc: Register,
}

impl MinimalStateRegistersInMemory {
    /// Allocates the state that comes from the row before.
    pub fn initialize(circuit: &mut BasicAssembly) -> (r: Self)
        requires
            old(circuit).next() + 2 <= usize::MAX,
        ensures
            r.pc.low == Variable(old(circuit).next() as usize),
            r.pc.high == Variable((old(circuit).next() + 1) as usize),
            final(circuit).next() == old(circuit).next() + 2,
            final(circuit).statements() == old(circuit).statements(),
            final(circuit).rules() == old(circuit).rules().push(
                WitnessRule::External(r.pc, Placeholder::PcInit),
            ),
            forall|w: spec_fn(Variable) -> int, t: TableContents, x: OutsideValues| #[trigger]
                final(circuit).computed(w, t, x) <==> old(circuit).computed(w, t, x) && x.fills(
                    r.pc,
                    Placeholder::PcInit,
                    w,
                ),
    {
        let pc = circuit.new_unchecked_from_placeholder(Placeholder::PcInit);
        MinimalStateRegistersInMemory { pc }
    }

    /// Number of variables that the state takes.
    pub fn set_size() -> (r: usize)
        ensures
            r == 2,
    {
        Register::set_size()
    }

    pub fn append_into_variables_set(&self, dst: &mut Vec<Variable>)
        ensures
            final(dst)@ == old(dst)@.push(self.pc.low).push(self.pc.high),
    {
        self.pc.append_into_variables_set(dst);
    }

    /// Whether instructions are read from a fixed table.
    pub fn opcodes_are_in_rom() -> (r: bool)
        ensures
            r,
    {
        true
    }

    pub fn get_pc(&self) -> (r: &Register)
        ensures
            *r == self.pc,
    {
        &self.pc
    }

    pub fn get_pc_mut(&mut self) -> (r: &mut Register)
        ensures
            *r == old(self).pc,
            final(self).pc == *final(r),
    {
        &mut self.pc
    }

    /// The only CSR is the one of the oracle.
    pub fn csr_use_props() -> (r: CSRUseProperties)
        ensures
            r.standard_csrs@.len() == 0,
            r.allow_non_determinism_csr,
            !r.support_mstatus,
    {
        CSRUseProperties {
            standard_csrs: Vec::new(),
            allow_non_determinism_csr: true,
            support_mstatus: false,
        }
    }

    /// The state holds no CSRs.
    pub fn all_csrs(&self) -> (r: BTreeMap<u16, Register>)
        ensures
            r@ == Map::<u16, Register>::empty(),
    {
        BTreeMap::new()
    }
}

/// A variable as a polynomial.
pub fn one(v: Variable) -> (r: Constraint)
    ensures
        r.is_linear(),
        forall|w: spec_fn(Variable) -> int| #[trigger] r.value(w) == field::residue(w(v)),
{
    let r = Constraint::weighted(v, 1);
    assert forall|w: spec_fn(Variable) -> int| #[trigger]
        r.value(w) == field::residue(w(v)) by {
        assert(1 * w(v) == w(v));
    }
    r
}

/// What reading the instruction at `pc` demands: the upper half of the program counter lies in
/// read-only memory, and the program table holds the instruction at that address.
pub open spec fn rom_demands(
    start: int,
    pc: Register,
    w: spec_fn(Variable) -> int,
    t: TableContents,
) -> bool {
    let is_ram = w(Variable(start as usize));
    let chunk = w(Variable((start + 1) as usize));
    let opcode = opcode_register(start);
    &&& t.holds(
        TableType::RomAddressSpaceSeparator,
        field::residue(w(pc.high)),
        field::residue(is_ram),
        field::residue(chunk),
    )
    &&& field::residue(is_ram) == 0
    &&& t.holds(
        TableType::RomRead,
        field::residue(w(pc.low) + 0x1_0000 * chunk),
        field::residue(w(opcode.low)),
        field::residue(w(opcode.high)),
    )
}

/// How the instruction at `pc` is read: the tables are asked.
pub open spec fn rom_computes(
    start: int,
    pc: Register,
    w: spec_fn(Variable) -> int,
    t: TableContents,
) -> bool {
    let is_ram = w(Variable(start as usize));
    let chunk = w(Variable((start + 1) as usize));
    let opcode = opcode_register(start);
    &&& t.holds(TableType::RomAddressSpaceSeparator, field::residue(w(pc.high)), is_ram, chunk)
    &&& t.holds(
        TableType::RomRead,
        field::residue(w(pc.low) + 0x1_0000 * chunk),
        w(opcode.low),
        w(opcode.high),
    )
}

/// Where reading the instruction puts it.
pub open spec fn opcode_register(start: int) -> Register {
    Register { low: Variable((start + 2) as usize), high: Variable((start + 3) as usize) }
}

/// Reads the instruction at `pc` from the program table.
pub fn read_opcode_from_rom(cs: &mut BasicAssembly, pc: Register) -> (r: Register)
    requires
        old(cs).next() + 4 <= usize::MAX,
    ensures
        r == opcode_register(old(cs).next()),
        final(cs).next() == old(cs).next() + 4,
        forall|w: spec_fn(Variable) -> int, t: TableContents| #[trigger]
            final(cs).satisfied(w, t) <==> old(cs).satisfied(w, t) && rom_demands(
                old(cs).next(),
                pc,
                w,
                t,
            ),
        forall|w: spec_fn(Variable) -> int, t: TableContents, x: OutsideValues| #[trigger]
            final(cs).computed(w, t, x) <==> old(cs).computed(w, t, x) && rom_computes(
                old(cs).next(),
                pc,
                w,
                t,
            ),
{
    let is_ram = cs.add_variable();
    let chunk = cs.add_variable();
    let low = cs.add_variable();
    let high = cs.add_variable();
    let opcode = Register { low, high };
    let address_part = Constraint::weighted(chunk, 0x1_0000);
    let address = one(pc.low).plus(&address_part);
    proof {
        assert forall|w: spec_fn(Variable) -> int| #[trigger]
            address.value(w) == field::residue(w(pc.low) + 0x1_0000 * w(chunk)) by {
            expression::lemma_combine(w(pc.low), 0x1_0000 * w(chunk));
        }
    }
    let rule_address = address.duplicate();
    let ghost c0 = *cs;
    assert(forall|w: spec_fn(Variable) -> int, t: TableContents, x: OutsideValues| #[trigger]
        c0.computed(w, t, x) <==> old(cs).computed(w, t, x));
    cs.set_values(
        WitnessRule::TableOutputs(
            TableType::RomAddressSpaceSeparator,
            one(pc.high),
            Register { low: is_ram, high: chunk },
        ),
    );
    let ghost with_separator = *cs;
    cs.set_values(WitnessRule::TableOutputs(TableType::RomRead, rule_address, opcode));
    let ghost c1 = *cs;
    assert(forall|w: spec_fn(Variable) -> int, t: TableContents| #[trigger]
        c1.satisfied(w, t) <==> old(cs).satisfied(w, t));
    cs.enforce_lookup_tuple_for_fixed_table(
        TableType::RomAddressSpaceSeparator,
        one(pc.high),
        one(is_ram),
        one(chunk),
    );
    let ghost c2 = *cs;
    cs.add_constraint(one(is_ram));
    let ghost c3 = *cs;
    cs.enforce_lookup_tuple_for_fixed_table(TableType::RomRead, address, one(low), one(high));
    proof {
        assert forall|w: spec_fn(Variable) -> int, t: TableContents| #[trigger]
            cs.satisfied(w, t) <==> old(cs).satisfied(w, t) && rom_demands(
                old(cs).next(),
                pc,
                w,
                t,
            ) by {
            assert(cs.satisfied(w, t) ==> c3.satisfied(w, t));
            assert(c3.satisfied(w, t) <==> c2.satisfied(w, t) && field::residue(w(is_ram)) == 0);
            assert(c2.satisfied(w, t) ==> c1.satisfied(w, t));
        }
        assert forall|w: spec_fn(Variable) -> int, t: TableContents, x: OutsideValues| #[trigger]
            cs.computed(w, t, x) <==> old(cs).computed(w, t, x) && rom_computes(
                old(cs).next(),
                pc,
                w,
                t,
            ) by {
            assert(cs.computed(w, t, x) <==> c1.computed(w, t, x));
            assert(rule_address.value(w) == address.value(w));
            assert(with_separator.computed(w, t, x) <==> c0.computed(w, t, x) && t.holds(
                TableType::RomAddressSpaceSeparator,
                field::residue(w(pc.high)),
                w(is_ram),
                w(chunk),
            ));
        }
    }
    opcode
}

/// What tells a limb from a constant: `z` is set where they agree, and `inverse` inverts their
/// difference where they do not.
pub open spec fn difference_demands(
    start: int,
    limb: Variable,
    c: int,
    w: spec_fn(Variable) -> int,
) -> bool {
    let z = w(Variable(start as usize));
    let inverse = w(Variable((start + 1) as usize));
    &&& decoder::is_boolean(z)
    &&& field::residue((w(limb) - c) * inverse + z - 1) == 0
    &&& field::residue((w(limb) - c) * z) == 0
}

/// How the flag and the inverse are computed.
pub open spec fn difference_computes(
    start: int,
    limb: Variable,
    c: int,
    w: spec_fn(Variable) -> int,
) -> bool {
    assembly::is_zero_check(
        w(limb) - c,
        w(Variable(start as usize)),
        w(Variable((start + 1) as usize)),
    )
}

/// Compares a limb with a constant; returns the flag of their being equal.
pub fn equality_flag(cs: &mut BasicAssembly, limb: Variable, c: u32) -> (r: Boolean)
    requires
        c < 0x1_0000,
        old(cs).next() + 2 <= usize::MAX,
    ensures
        r == Boolean::Is(Variable(old(cs).next() as usize)),
        final(cs).next() == old(cs).next() + 2,
        forall|w: spec_fn(Variable) -> int, t: TableContents| #[trigger]
            final(cs).satisfied(w, t) <==> old(cs).satisfied(w, t) && difference_demands(
                old(cs).next(),
                limb,
                c as int,
                w,
            ),
        forall|w: spec_fn(Variable) -> int, t: TableContents, x: OutsideValues| #[trigger]
            final(cs).computed(w, t, x) <==> old(cs).computed(w, t, x) && difference_computes(
                old(cs).next(),
                limb,
                c as int,
                w,
            ),
{
    let z = cs.add_boolean_variable();
    let ghost c1 = *cs;
    let inverse = cs.add_variable();
    let ghost c2 = *cs;
    assert(forall|w: spec_fn(Variable) -> int, t: TableContents| #[trigger]
        c2.satisfied(w, t) <==> c1.satisfied(w, t));
    let difference = one(limb).minus(&Constraint::constant(c));
    let flag = Constraint::weighted_boolean(z, 1);
    let checked = difference.duplicate();
    let product = difference.times(&one(inverse));
    let sum = product.plus(&flag);
    let first = sum.minus(&Constraint::constant(1));
    let second = difference.times(&flag);
    proof {
        assert forall|w: spec_fn(Variable) -> int|
            (#[trigger] first.value(w) == 0) <==> field::residue(
                (w(limb) - c) * w(inverse) + z.value(w) - 1,
            ) == 0 by {
            let (d, i, f) = (w(limb) - c, w(inverse), z.value(w));
            assert(1 * f == f);
            expression::lemma_combine(w(limb), c as int);
            assert(difference.value(w) == field::residue(d));
            expression::lemma_combine(d, i);
            assert(product.value(w) == field::residue(d * i));
            expression::lemma_combine(d * i, f);
            assert(sum.value(w) == field::residue(d * i + f));
            expression::lemma_combine(d * i + f, 1);
        }
        assert forall|w: spec_fn(Variable) -> int|
            (#[trigger] second.value(w) == 0) <==> field::residue((w(limb) - c) * z.value(w))
                == 0 by {
            let (d, f) = (w(limb) - c, z.value(w));
            assert(1 * f == f);
            expression::lemma_combine(w(limb), c as int);
            expression::lemma_combine(d, f);
        }
    }
    cs.add_constraint(first);
    let ghost c3 = *cs;
    cs.add_constraint(second);
    let ghost c4 = *cs;
    let ghost flag_variable = Variable(old(cs).next() as usize);
    if let Some(v) = z.get_variable() {
        cs.set_values(WitnessRule::ZeroCheck(checked, v, inverse));
    }
    proof {
        assert forall|w: spec_fn(Variable) -> int, t: TableContents, x: OutsideValues| #[trigger]
            cs.computed(w, t, x) <==> old(cs).computed(w, t, x) && difference_computes(
                old(cs).next(),
                limb,
                c as int,
                w,
            ) by {
            let d = w(limb) - c;
            assert(c4.computed(w, t, x) <==> old(cs).computed(w, t, x));
            expression::lemma_combine(w(limb), c as int);
            assert(checked.value(w) == difference.value(w));
            assert(checked.value(w) == field::residue(d));
            field::lemma_residue_absorb(d, w(inverse));
            assert(z.value(w) == w(flag_variable));
        }
        assert forall|w: spec_fn(Variable) -> int, t: TableContents| #[trigger]
            cs.satisfied(w, t) <==> old(cs).satisfied(w, t) && difference_demands(
                old(cs).next(),
                limb,
                c as int,
                w,
            ) by {
            assert(cs.satisfied(w, t) <==> c4.satisfied(w, t));
            assert(c4.satisfied(w, t) <==> c3.satisfied(w, t) && second.value(w) == 0);
            assert(c3.satisfied(w, t) <==> c2.satisfied(w, t) && first.value(w) == 0);
        }
    }
    z
}

/// What keeps an instruction from being the padding.
pub open spec fn no_unimp_demands(
    start: int,
    opcode: Register,
    w: spec_fn(Variable) -> int,
) -> bool {
    &&& difference_demands(start, opcode.low, UNIMP_LOW as int, w)
    &&& difference_demands(start + 2, opcode.high, UNIMP_HIGH as int, w)
    &&& field::residue(
        w(Variable(start as usize)) * w(Variable((start + 2) as usize)),
    ) == 0
}

/// How the comparison with the padding is computed.
pub open spec fn no_unimp_computes(
    start: int,
    opcode: Register,
    w: spec_fn(Variable) -> int,
) -> bool {
    &&& difference_computes(start, opcode.low, UNIMP_LOW as int, w)
    &&& difference_computes(start + 2, opcode.high, UNIMP_HIGH as int, w)
}

/// Demands that an instruction is not the padding.
pub fn assert_no_unimp(cs: &mut BasicAssembly, opcode: Register)
    requires
        old(cs).next() + 4 <= usize::MAX,
    ensures
        final(cs).next() == old(cs).next() + 4,
        forall|w: spec_fn(Variable) -> int, t: TableContents| #[trigger]
            final(cs).satisfied(w, t) <==> old(cs).satisfied(w, t) && no_unimp_demands(
                old(cs).next(),
                opcode,
                w,
            ),
        forall|w: spec_fn(Variable) -> int, t: TableContents, x: OutsideValues| #[trigger]
            final(cs).computed(w, t, x) <==> old(cs).computed(w, t, x) && no_unimp_computes(
                old(cs).next(),
                opcode,
                w,
            ),
{
    let low_flag = equality_flag(cs, opcode.low, UNIMP_LOW);
    let ghost c1 = *cs;
    let high_flag = equality_flag(cs, opcode.high, UNIMP_HIGH);
    let ghost c2 = *cs;
    let x = Constraint::weighted_boolean(low_flag, 1);
    let y = Constraint::weighted_boolean(high_flag, 1);
    let product = x.times(&y);
    proof {
        assert forall|w: spec_fn(Variable) -> int| #[trigger]
            product.value(w) == field::residue(low_flag.value(w) * high_flag.value(w)) by {
            let (a, b) = (low_flag.value(w), high_flag.value(w));
            assert(1 * a == a && 1 * b == b);
            expression::lemma_combine(a, b);
        }
    }
    cs.add_constraint(product);
    proof {
        assert forall|w: spec_fn(Variable) -> int, t: TableContents| #[trigger]
            cs.satisfied(w, t) <==> old(cs).satisfied(w, t) && no_unimp_demands(
                old(cs).next(),
                opcode,
                w,
            ) by {
            assert(c2.satisfied(w, t) <==> c1.satisfied(w, t) && difference_demands(
                c1.next(),
                opcode.high,
                UNIMP_HIGH as int,
                w,
            ));
        }
        assert forall|w: spec_fn(Variable) -> int, t: TableContents, x: OutsideValues| #[trigger]
            cs.computed(w, t, x) <==> old(cs).computed(w, t, x) && no_unimp_computes(
                old(cs).next(),
                opcode,
                w,
            ) by {
            assert(cs.computed(w, t, x) <==> c2.computed(w, t, x));
            assert(c2.computed(w, t, x) <==> c1.computed(w, t, x) && difference_computes(
                c1.next(),
                opcode.high,
                UNIMP_HIGH as int,
                w,
            ));
        }
    }
}

/// Where the padding is ruled out, an instruction is not the padding.
pub proof fn law_no_unimp(start: int, opcode: Register, w: spec_fn(Variable) -> int)
    requires
        no_unimp_demands(start, opcode, w),
    ensures
        !(w(opcode.low) == UNIMP_LOW && w(opcode.high) == UNIMP_HIGH),
{
    if w(opcode.low) == UNIMP_LOW && w(opcode.high) == UNIMP_HIGH {
        let (z1, z2) = (w(Variable(start as usize)), w(Variable((start + 2) as usize)));
        let (i1, i2) = (w(Variable((start + 1) as usize)), w(Variable((start + 3) as usize)));
        assert(0 * i1 == 0 && 0 * i2 == 0);
        assert(field::residue(z1 - 1) == 0 && field::residue(z2 - 1) == 0);
        field::lemma_residue_absorb(z1 - 1, 1);
        field::lemma_residue_absorb(z2 - 1, 1);
        assert(field::residue(z1) == 1 && field::residue(z2) == 1);
        expression::lemma_combine(z1, z2);
    }
}

/// The padding that is ruled out is the instruction that pads a program.
pub proof fn law_padding_is_what_is_ruled_out()
    ensures
        UNIMP_LOW + 0x1_0000 * UNIMP_HIGH == 0xc000_1073,
{
}

/// The comparison of a limb with a constant is right: its flag is set where they are equal, and zero
/// where they are not.
pub proof fn law_comparison_is_right(
    start: int,
    limb: Variable,
    c: int,
    w: spec_fn(Variable) -> int,
)
    requires
        forall|v: Variable| 0 <= #[trigger] w(v) < 0x7fff_ffff,
        0 <= c < 0x7fff_ffff,
        difference_demands(start, limb, c, w),
    ensures
        w(limb) == c ==> w(Variable(start as usize)) == 1,
        w(limb) != c ==> w(Variable(start as usize)) == 0,
{
    let z = w(Variable(start as usize));
    let inverse = w(Variable((start + 1) as usize));
    let d = w(limb) - c;
    prime::lemma_boolean(z);
    if d == 0 {
        assert(d * inverse == 0) by (nonlinear_arith)
            requires
                d == 0,
        ;
        if z == 0 {
            assert(field::residue(-1) == 0x7fff_fffe);
        }
    } else if z == 1 {
        assert(d * z == d);
        assert(-0x7fff_ffff < d < 0x7fff_ffff);
    }
}

} // verus!
