//! Choosing among values by flags of which at most one is set.
use crate::circuit::assembly::{BasicAssembly, OutsideValues, TableContents};
use crate::circuit::decoder::{FormatBits, OptimizedDecoder};
use crate::circuit::expression;
use crate::circuit::expression::{Boolean, Constraint, Register, Variable};
use crate::field;
use vstd::prelude::*;

verus! {

/// The sum of `values`, each times its flag.
pub open spec fn flagged_sum(
    flags: Seq<Boolean>,
    values: Seq<Variable>,
    w: spec_fn(Variable) -> int,
) -> int
    decreases flags.len(),
{
    if flags.len() == 0 {
        0
    } else {
        flagged_sum(flags.drop_last(), values.drop_last(), w) + flags.last().value(w) * w(
            values.last(),
        )
    }
}

pub open spec fn low_limbs(variants: Seq<Register>) -> Seq<Variable> {
    variants.map_values(|r: Register| r.low)
}

pub open spec fn high_limbs(variants: Seq<Register>) -> Seq<Variable> {
    variants.map_values(|r: Register| r.high)
}

fn flagged_sum_of(flags: &Vec<Boolean>, values: &Vec<Variable>) -> (r: Constraint)
    requires
        flags@.len() == values@.len(),
    ensures
        forall|w: spec_fn(Variable) -> int| #[trigger]
            r.value(w) == field::residue(flagged_sum(flags@, values@, w)),
{
    let mut sum = Constraint::empty();
    let mut i: usize = 0;
    while i < flags.len()
        invariant
            i <= flags@.len(),
            flags@.len() == values@.len(),
            forall|w: spec_fn(Variable) -> int| #[trigger]
                sum.value(w) == field::residue(
                    flagged_sum(flags@.take(i as int), values@.take(i as int), w),
                ),
        decreases flags@.len() - i,
    {
        let flag = Constraint::weighted_boolean(flags[i], 1);
        let value = Constraint::weighted(values[i], 1);
        let product = flag.times(&value);
        let ghost before = sum;
        sum = sum.plus(&product);
        proof {
            assert(flags@.take(i + 1).drop_last() =~= flags@.take(i as int));
            assert(values@.take(i + 1).drop_last() =~= values@.take(i as int));
            assert forall|w: spec_fn(Variable) -> int| #[trigger]
                sum.value(w) == field::residue(
                    flagged_sum(flags@.take(i + 1), values@.take(i + 1), w),
                ) by {
                let (f, v) = (flags@[i as int].value(w), w(values@[i as int]));
                assert(1 * f == f && 1 * v == v);
                expression::lemma_combine(f, v);
                expression::lemma_combine(
                    flagged_sum(flags@.take(i as int), values@.take(i as int), w),
                    f * v,
                );
                assert(before.value(w) == field::residue(
                    flagged_sum(flags@.take(i as int), values@.take(i as int), w),
                ));
            }
        }
        i = i + 1;
    }
    assert(flags@.take(flags@.len() as int) =~= flags@);
    assert(values@.take(values@.len() as int) =~= values@);
    sum
}

/// A register that holds the sum of the variants, each times its flag: where one flag is set, the
/// variant that it stands for.
pub fn choose_from_orthogonal_variants(
    circuit: &mut BasicAssembly,
    flags: &Vec<Boolean>,
    variants: &Vec<Register>,
) -> (r: Register)
    requires
        flags@.len() == variants@.len(),
        old(circuit).next() + 2 <= usize::MAX,
    ensures
        r.low == Variable(old(circuit).next() as usize),
        r.high == Variable((old(circuit).next() + 1) as usize),
        final(circuit).next() == old(circuit).next() + 2,
        forall|w: spec_fn(Variable) -> int, t: TableContents| #[trigger]
            final(circuit).satisfied(w, t) <==> old(circuit).satisfied(w, t) && field::residue(
                w(r.low),
            ) == field::residue(flagged_sum(flags@, low_limbs(variants@), w)) && field::residue(
                w(r.high),
            ) == field::residue(flagged_sum(flags@, high_limbs(variants@), w)),
        forall|w: spec_fn(Variable) -> int, t: TableContents, x: OutsideValues| #[trigger]
            final(circuit).computed(w, t, x) <==> old(circuit).computed(w, t, x) && w(r.low)
                == field::residue(flagged_sum(flags@, low_limbs(variants@), w)) && w(r.high)
                == field::residue(flagged_sum(flags@, high_limbs(variants@), w)),
{
    let mut lows: Vec<Variable> = Vec::new();
    let mut highs: Vec<Variable> = Vec::new();
    let mut i: usize = 0;
    while i < variants.len()
        invariant
            i <= variants@.len(),
            lows@ == low_limbs(variants@.take(i as int)),
            highs@ == high_limbs(variants@.take(i as int)),
        decreases variants@.len() - i,
    {
        lows.push(variants[i].low);
        highs.push(variants[i].high);
        assert(lows@ =~= low_limbs(variants@.take(i + 1)));
        assert(highs@ =~= high_limbs(variants@.take(i + 1)));
        i = i + 1;
    }
    assert(variants@.take(variants@.len() as int) =~= variants@);
    let low_sum = flagged_sum_of(flags, &lows);
    let low = circuit.add_variable_from_constraint(low_sum);
    let ghost middle = *circuit;
    let high_sum = flagged_sum_of(flags, &highs);
    let high = circuit.add_variable_from_constraint(high_sum);
    proof {
        assert forall|w: spec_fn(Variable) -> int, t: TableContents| #[trigger]
            circuit.satisfied(w, t) <==> old(circuit).satisfied(w, t) && field::residue(w(low))
                == field::residue(flagged_sum(flags@, low_limbs(variants@), w)) && field::residue(
                w(high),
            ) == field::residue(flagged_sum(flags@, high_limbs(variants@), w)) by {
            assert(middle.satisfied(w, t) <==> old(circuit).satisfied(w, t) && field::residue(
                w(low),
            ) == low_sum.value(w));
        }
        assert forall|w: spec_fn(Variable) -> int, t: TableContents, x: OutsideValues| #[trigger]
            circuit.computed(w, t, x) <==> old(circuit).computed(w, t, x) && w(low) == field::residue(
                flagged_sum(flags@, low_limbs(variants@), w),
            ) && w(high) == field::residue(flagged_sum(flags@, high_limbs(variants@), w)) by {
            assert(middle.computed(w, t, x) <==> old(circuit).computed(w, t, x) && w(low)
                == low_sum.value(w));
        }
    }
    Register { low, high }
}

/// Exactly the flag at `chosen` is set.
pub open spec fn is_one_hot(
    flags: Seq<Boolean>,
    chosen: int,
    w: spec_fn(Variable) -> int,
) -> bool {
    forall|i: int|
        0 <= i < flags.len() ==> (#[trigger] flags[i]).value(w) == if i == chosen {
            1int
        } else {
            0
        }
}

/// Where one flag is set, the sum is the value that it stands for; where none is, it is zero.
pub proof fn law_flagged_sum_selects(
    flags: Seq<Boolean>,
    values: Seq<Variable>,
    chosen: int,
    w: spec_fn(Variable) -> int,
)
    requires
        flags.len() == values.len(),
        is_one_hot(flags, chosen, w),
    ensures
        flagged_sum(flags, values, w) == if 0 <= chosen < flags.len() {
            w(values[chosen])
        } else {
            0
        },
    decreases flags.len(),
{
    if flags.len() > 0 {
        let shorter = flags.drop_last();
        assert forall|i: int| 0 <= i < shorter.len() implies (#[trigger] shorter[i]).value(w)
            == if i == chosen {
            1int
        } else {
            0
        } by {
            assert(shorter[i] == flags[i]);
        }
        law_flagged_sum_selects(shorter, values.drop_last(), chosen, w);
        let last = flags.len() - 1;
        assert(flags[last].value(w) == if last == chosen {
            1int
        } else {
            0
        });
        assert(1 * w(values.last()) == w(values.last()));
        assert(0 * w(values.last()) == 0);
    }
}

/// The operands of an instruction by its format: the second one is the immediate in the I format,
/// and the second source register in the R, S and B formats.
pub open spec fn operand_flags(f: FormatBits<Boolean>) -> Seq<Boolean> {
    seq![f.r, f.i, f.s, f.b]
}

pub open spec fn operand_variants(imm: Register, rs2_value: Register) -> Seq<Register> {
    seq![rs2_value, imm, rs2_value, rs2_value]
}

/// Selects the second operand by the format.
pub fn select_second_operand(
    circuit: &mut BasicAssembly,
    formats: &FormatBits<Boolean>,
    imm: Register,
    rs2_value: Register,
) -> (r: Register)
    requires
        old(circuit).next() + 2 <= usize::MAX,
    ensures
        r.low == Variable(old(circuit).next() as usize),
        r.high == Variable((old(circuit).next() + 1) as usize),
        final(circuit).next() == old(circuit).next() + 2,
        forall|w: spec_fn(Variable) -> int, t: TableContents| #[trigger]
            final(circuit).satisfied(w, t) <==> old(circuit).satisfied(w, t) && is_selected(
                *formats,
                imm,
                rs2_value,
                r,
                w,
            ),
        forall|w: spec_fn(Variable) -> int, t: TableContents, x: OutsideValues| #[trigger]
            final(circuit).computed(w, t, x) <==> old(circuit).computed(w, t, x)
                && is_computed_operand(*formats, imm, rs2_value, r, w),
{
    let mut flags: Vec<Boolean> = Vec::new();
    flags.push(formats.r);
    flags.push(formats.i);
    flags.push(formats.s);
    flags.push(formats.b);
    let mut variants: Vec<Register> = Vec::new();
    variants.push(rs2_value);
    variants.push(imm);
    variants.push(rs2_value);
    variants.push(rs2_value);
    assert(flags@ =~= operand_flags(*formats));
    assert(variants@ =~= operand_variants(imm, rs2_value));
    choose_from_orthogonal_variants(circuit, &flags, &variants)
}

/// Whether `selected` was computed as the operand that the format asks for.
pub open spec fn is_computed_operand(
    f: FormatBits<Boolean>,
    imm: Register,
    rs2_value: Register,
    selected: Register,
    w: spec_fn(Variable) -> int,
) -> bool {
    let variants = operand_variants(imm, rs2_value);
    &&& w(selected.low) == field::residue(flagged_sum(operand_flags(f), low_limbs(variants), w))
    &&& w(selected.high) == field::residue(flagged_sum(operand_flags(f), high_limbs(variants), w))
}

/// An operand that was computed by the format is the one that the format asks for.
pub proof fn law_computed_operand_is_selected(
    f: FormatBits<Boolean>,
    imm: Register,
    rs2_value: Register,
    selected: Register,
    w: spec_fn(Variable) -> int,
)
    requires
        is_computed_operand(f, imm, rs2_value, selected, w),
    ensures
        is_selected(f, imm, rs2_value, selected, w),
{
    let variants = operand_variants(imm, rs2_value);
    field::lemma_residue_absorb(flagged_sum(operand_flags(f), low_limbs(variants), w), 0);
    field::lemma_residue_absorb(flagged_sum(operand_flags(f), high_limbs(variants), w), 0);
}

/// Whether `selected` is, limb by limb, the operand that the format asks for.
pub open spec fn is_selected(
    f: FormatBits<Boolean>,
    imm: Register,
    rs2_value: Register,
    selected: Register,
    w: spec_fn(Variable) -> int,
) -> bool {
    let variants = operand_variants(imm, rs2_value);
    &&& field::residue(w(selected.low)) == field::residue(
        flagged_sum(operand_flags(f), low_limbs(variants), w),
    )
    &&& field::residue(w(selected.high)) == field::residue(
        flagged_sum(operand_flags(f), high_limbs(variants), w),
    )
}

/// Whether an instruction writes its destination register: one in the R, I, J and U formats.
pub open spec fn update_rd(f: FormatBits<Boolean>, w: spec_fn(Variable) -> int) -> int {
    f.r.value(w) + f.i.value(w) + f.j.value(w) + f.u.value(w)
}

/// Whether an instruction writes its destination register.
pub fn update_rd_expression(f: &FormatBits<Boolean>) -> (r: Constraint)
    ensures
        r.is_linear(),
        forall|w: spec_fn(Variable) -> int| #[trigger]
            r.value(w) == field::residue(update_rd(*f, w)),
{
    let r_flag = Constraint::weighted_boolean(f.r, 1);
    let with_i = r_flag.plus(&Constraint::weighted_boolean(f.i, 1));
    let with_j = with_i.plus(&Constraint::weighted_boolean(f.j, 1));
    let sum = with_j.plus(&Constraint::weighted_boolean(f.u, 1));
    proof {
        assert forall|w: spec_fn(Variable) -> int| #[trigger]
            sum.value(w) == field::residue(update_rd(*f, w)) by {
            let (a, b, c, d) = (f.r.value(w), f.i.value(w), f.j.value(w), f.u.value(w));
            assert(1 * a == a && 1 * b == b && 1 * c == c && 1 * d == d);
            assert(r_flag.value(w) == field::residue(a));
            expression::lemma_combine(a, b);
            assert(with_i.value(w) == field::residue(a + b));
            expression::lemma_combine(a + b, c);
            assert(with_j.value(w) == field::residue(a + b + c));
            expression::lemma_combine(a + b + c, d);
        }
    }
    sum
}

impl OptimizedDecoder {
    /// Chooses the source operands of an instruction by its format, and says whether it writes its
    /// destination register, which the R, I, J and U formats do.
    pub fn select_src1_and_src2_values(
        cs: &mut BasicAssembly,
        opcode_format_bits: &FormatBits<Boolean>,
        rs1_value: Register,
        decoded_imm: Register,
        rs2_value: Register,
    ) -> (r: (Register, Register, Constraint))
        requires
            old(cs).next() + 2 <= usize::MAX,
        ensures
            r.0 == rs1_value,
            r.1.low == Variable(old(cs).next() as usize),
            r.1.high == Variable((old(cs).next() + 1) as usize),
            final(cs).next() == old(cs).next() + 2,
            forall|w: spec_fn(Variable) -> int, t: TableContents| #[trigger]
                final(cs).satisfied(w, t) <==> old(cs).satisfied(w, t) && is_selected(
                    *opcode_format_bits,
                    decoded_imm,
                    rs2_value,
                    r.1,
                    w,
                ),
            forall|w: spec_fn(Variable) -> int, t: TableContents, x: OutsideValues| #[trigger]
                final(cs).computed(w, t, x) <==> old(cs).computed(w, t, x) && is_computed_operand(
                    *opcode_format_bits,
                    decoded_imm,
                    rs2_value,
                    r.1,
                    w,
                ),
            r.2.is_linear(),
            forall|w: spec_fn(Variable) -> int| #[trigger]
                r.2.value(w) == field::residue(update_rd(*opcode_format_bits, w)),
    {
        let src2 = select_second_operand(cs, opcode_format_bits, decoded_imm, rs2_value);
        let update_rd = update_rd_expression(opcode_format_bits);
        (rs1_value, src2, update_rd)
    }
}

/// In the I format the second operand is the immediate; in the R, S and B formats it is the value
/// of the second source register.
pub proof fn law_second_operand_by_format(
    f: FormatBits<Boolean>,
    imm: Register,
    rs2_value: Register,
    selected: Register,
    chosen: int,
    w: spec_fn(Variable) -> int,
)
    requires
        forall|v: Variable| 0 <= #[trigger] w(v) < 0x7fff_ffff,
        is_one_hot(operand_flags(f), chosen, w),
        0 <= chosen < 4,
        is_selected(f, imm, rs2_value, selected, w),
    ensures
        chosen == 1 ==> selected.value(w) == imm.value(w),
        chosen != 1 ==> selected.value(w) == rs2_value.value(w),
{
    let variants = operand_variants(imm, rs2_value);
    law_flagged_sum_selects(operand_flags(f), low_limbs(variants), chosen, w);
    law_flagged_sum_selects(operand_flags(f), high_limbs(variants), chosen, w);
    let picked = variants[chosen];
    assert(low_limbs(variants)[chosen] == picked.low);
    assert(high_limbs(variants)[chosen] == picked.high);
    assert(0 <= w(selected.low) < 0x7fff_ffff && 0 <= w(selected.high) < 0x7fff_ffff);
    assert(0 <= w(picked.low) < 0x7fff_ffff && 0 <= w(picked.high) < 0x7fff_ffff);
    assert(w(selected.low) == w(picked.low));
    assert(w(selected.high) == w(picked.high));
}

/// With one format set, an instruction writes its destination register if that is the R, the I, the
/// U or the J format, and not if it is the S or the B format.
pub proof fn law_formats_that_write(f: FormatBits<Boolean>, w: spec_fn(Variable) -> int)
    requires
        0 <= f.r.value(w) && 0 <= f.i.value(w) && 0 <= f.s.value(w) && 0 <= f.b.value(w),
        0 <= f.u.value(w) && 0 <= f.j.value(w),
        f.r.value(w) + f.i.value(w) + f.s.value(w) + f.b.value(w) + f.u.value(w) + f.j.value(w)
            == 1,
    ensures
        f.s.value(w) == 1 || f.b.value(w) == 1 ==> update_rd(f, w) == 0,
        f.s.value(w) == 0 && f.b.value(w) == 0 ==> update_rd(f, w) == 1,
{
}

/// Where only the flag of the I format is set the second operand is the immediate, and where only
/// that of the R, the S or the B format is set it is the value of the second source register.
pub proof fn law_second_operand_by_flag(
    f: FormatBits<Boolean>,
    imm: Register,
    rs2_value: Register,
    selected: Register,
    w: spec_fn(Variable) -> int,
)
    requires
        forall|v: Variable| 0 <= #[trigger] w(v) < 0x7fff_ffff,
        0 <= f.r.value(w) && 0 <= f.i.value(w) && 0 <= f.s.value(w) && 0 <= f.b.value(w),
        f.r.value(w) + f.i.value(w) + f.s.value(w) + f.b.value(w) == 1,
        is_selected(f, imm, rs2_value, selected, w),
    ensures
        f.i.value(w) == 1 ==> selected.value(w) == imm.value(w),
        f.i.value(w) == 0 ==> selected.value(w) == rs2_value.value(w),
{
    let chosen = if f.r.value(w) == 1 {
        0int
    } else if f.i.value(w) == 1 {
        1
    } else if f.s.value(w) == 1 {
        2
    } else {
        3
    };
    let flags = operand_flags(f);
    assert(flags[0] == f.r && flags[1] == f.i && flags[2] == f.s && flags[3] == f.b);
    assert(is_one_hot(flags, chosen, w));
    law_second_operand_by_format(f, imm, rs2_value, selected, chosen, w);
}

} // verus!
