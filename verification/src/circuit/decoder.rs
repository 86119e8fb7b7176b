//! The instruction decoder: from the two halves of an instruction word to its fields, its
//! immediate and the flags of its format and family.
use crate::circuit::assembly;
use crate::circuit::assembly::{
    BasicAssembly, InstructionChunks, OutsideValues, TableContents, TableType, WitnessRule,
};
use crate::circuit::expression;
use crate::circuit::expression::{Boolean, Constraint, Register, Variable};
use crate::field;
use crate::field::Mersenne31Field;
use vstd::arithmetic::power2;
use vstd::prelude::*;

verus! {

/// The instruction formats R, I, S, B, U and J.
pub const NUM_INSTRUCTION_TYPES: usize = 6;

/// One value for each instruction format.
#[derive(Clone, Copy, PartialEq, Eq, Structural, Debug)]
pub struct FormatBits<T> {
    pub r: T,
    pub i: T,
    pub s: T,
    pub b: T,
    pub u: T,
    pub j: T,
}

pub open spec fn format_values(
    f: FormatBits<Boolean>,
    w: spec_fn(Variable) -> int,
) -> FormatBits<int> {
    FormatBits {
        r: f.r.value(w),
        i: f.i.value(w),
        s: f.s.value(w),
        b: f.b.value(w),
        u: f.u.value(w),
        j: f.j.value(w),
    }
}

/// Bit 7, from the lower half and its other chunks: what is left, divided by `2^7`.
pub open spec fn imm11_value(low: int, c: InstructionChunks<int>) -> int {
    field::residue(
        (low - c.opcode - 0x100 * c.imm4_1 - 0x1000 * c.funct3 - 0x8000 * c.rs1_low) * 0x100_0000,
    )
}

/// Bit 20, from the upper half and its other chunks: what is left, divided by `2^4`.
pub open spec fn rs2_low_value(high: int, c: InstructionChunks<int>) -> int {
    field::residue(
        (high - c.rs1_high - 0x20 * c.rs2_high - 0x200 * c.imm10_5 - 0x8000 * c.sign_bit)
            * 0x800_0000,
    )
}

/// The seven bits above bit 24.
pub open spec fn funct7_value(c: InstructionChunks<int>) -> int {
    0x40 * c.sign_bit + c.imm10_5
}

/// The lower half of the immediate, chosen by the format.
pub open spec fn imm_low_value(
    f: FormatBits<int>,
    c: InstructionChunks<int>,
    imm11: int,
    rs2_low: int,
) -> int {
    f.i * rs2_low + f.s * imm11 + (f.i + f.j) * (2 * c.rs2_high) + (f.s + f.b) * (2 * c.imm4_1) + (1
        - f.u) * (0x20 * c.imm10_5) + (f.i + f.s) * (0x800 * c.sign_bit) + f.b * (imm11 * 0x800)
        + f.j * (rs2_low * 0x800) + (f.i + f.s + f.b) * (0xf000 * c.sign_bit) + (f.u + f.j) * (
    0x8000 * c.rs1_low + 0x1000 * c.funct3)
}

/// The upper half of the immediate, chosen by the format.
pub open spec fn imm_high_value(f: FormatBits<int>, c: InstructionChunks<int>, high: int) -> int {
    f.j * (0xfff0 * c.sign_bit + c.rs1_high) + f.u * high + (1 - f.j - f.u) * (0xffff * c.sign_bit)
}

/// The number whose binary digits are the values of `bits`, the least one first.
pub open spec fn bits_value(bits: Seq<Boolean>, w: spec_fn(Variable) -> int) -> int
    decreases bits.len(),
{
    if bits.len() == 0 {
        0
    } else {
        bits_value(bits.drop_last(), w) + power2::pow2((bits.len() - 1) as nat) * bits.last().value(w)
    }
}

/// The key of the opcode table.
pub open spec fn opcode_key(c: InstructionChunks<int>) -> int {
    c.opcode + 0x80 * c.funct3 + 0x400 * funct7_value(c)
}

/// Booleans on the variables from `start` on.
pub open spec fn fresh_bits(start: int, count: int) -> Seq<Boolean> {
    Seq::new(count as nat, |i: int| Boolean::Is(Variable((start + i) as usize)))
}

pub open spec fn is_boolean(x: int) -> bool {
    field::residue(x * (x - 1)) == 0
}

/// What the opcode lookup demands of the bits that it allocates.
pub open spec fn lookup_demands(
    first: Seq<Boolean>,
    second: Seq<Boolean>,
    key: int,
    w: spec_fn(Variable) -> int,
    t: TableContents,
) -> bool {
    &&& forall|i: int| 0 <= i < first.len() ==> is_boolean((#[trigger] first[i]).value(w))
    &&& forall|i: int| 0 <= i < second.len() ==> is_boolean((#[trigger] second[i]).value(w))
    &&& t.holds(
        TableType::OpTypeBitmask,
        key,
        field::residue(bits_value(first, w)),
        field::residue(bits_value(second, w)),
    )
}

/// How the opcode lookup computes the bits that it allocates.
pub open spec fn lookup_computes(
    first: Seq<Boolean>,
    second: Seq<Boolean>,
    key: int,
    w: spec_fn(Variable) -> int,
    t: TableContents,
) -> bool {
    forall|a: int, b: int| #[trigger]
        t.holds(TableType::OpTypeBitmask, key, a, b) ==> assembly::holds_bits(first, a, w)
            && assembly::holds_bits(second, b, w)
}

pub struct OptimizedDecoder;

/// Allocates `count` booleans; returns them and the number that they are the digits of.
fn allocate_bits(circuit: &mut BasicAssembly, count: usize) -> (r: (Vec<Boolean>, Constraint))
    requires
        count <= 30,
        old(circuit).next() + count <= usize::MAX,
    ensures
        r.0@ == fresh_bits(old(circuit).next(), count as int),
        r.1.is_linear(),
        forall|w: spec_fn(Variable) -> int| #[trigger]
            r.1.value(w) == field::residue(bits_value(r.0@, w)),
        final(circuit).next() == old(circuit).next() + count,
        final(circuit).statements().len() == old(circuit).statements().len() + count,
        final(circuit).rules() == old(circuit).rules(),
        forall|w: spec_fn(Variable) -> int, t: TableContents| #[trigger]
            final(circuit).satisfied(w, t) <==> old(circuit).satisfied(w, t) && (forall|i: int|
                0 <= i < count ==> is_boolean((#[trigger] r.0@[i]).value(w))),
{
    let mut bits: Vec<Boolean> = Vec::new();
    let mut sum = Constraint::empty();
    let mut i: usize = 0;
    while i < count
        invariant
            i <= count <= 30,
            old(circuit).next() + count <= usize::MAX,
            bits@ == fresh_bits(old(circuit).next(), i as int),
            sum.is_linear(),
            forall|w: spec_fn(Variable) -> int| #[trigger]
                sum.value(w) == field::residue(bits_value(bits@, w)),
            circuit.next() == old(circuit).next() + i,
            circuit.statements().len() == old(circuit).statements().len() + i,
            circuit.rules() == old(circuit).rules(),
            forall|w: spec_fn(Variable) -> int, t: TableContents| #[trigger]
                circuit.satisfied(w, t) <==> old(circuit).satisfied(w, t) && (forall|j: int|
                    0 <= j < i ==> is_boolean((#[trigger] bits@[j]).value(w))),
        decreases count - i,
    {
        let ghost before = *circuit;
        let ghost bits_before = bits@;
        let ghost sum_before = sum;
        let bit = circuit.add_boolean_variable();
        proof {
            power2::lemma2_to64();
            power2::lemma_pow2_strictly_increases(i as nat, 31);
            vstd::bits::lemma_u32_shl_is_mul(1, i as u32);
        }
        let digit = Constraint::weighted_boolean(bit, 1u32 << (i as u32));
        sum = sum.plus(&digit);
        bits.push(bit);
        proof {
            assert(bits@ =~= fresh_bits(old(circuit).next(), i + 1));
            assert forall|w: spec_fn(Variable) -> int| #[trigger]
                sum.value(w) == field::residue(bits_value(bits@, w)) by {
                assert(sum.value(w) == field::residue(sum_before.value(w) + digit.value(w)));
                assert(bits@.drop_last() =~= bits_before);
                expression::lemma_combine(
                    bits_value(bits_before, w),
                    power2::pow2(i as nat) * bit.value(w),
                );
            }
            assert forall|w: spec_fn(Variable) -> int, t: TableContents| #[trigger]
                circuit.satisfied(w, t) <==> old(circuit).satisfied(w, t) && (forall|j: int|
                    0 <= j < i + 1 ==> is_boolean((#[trigger] bits@[j]).value(w))) by {
                assert(circuit.satisfied(w, t) <==> before.satisfied(w, t) && is_boolean(
                    bit.value(w),
                ));
                assert(bits@[i as int] == bit);
                assert(forall|j: int| 0 <= j < i ==> bits@[j] == #[trigger] bits_before[j]);
                if forall|j: int| 0 <= j < i + 1 ==> is_boolean((#[trigger] bits@[j]).value(w)) {
                    assert forall|j: int| 0 <= j < i implies is_boolean(
                        (#[trigger] bits_before[j]).value(w),
                    ) by {
                        assert(bits@[j] == bits_before[j]);
                    }
                }
            }
        }
        i = i + 1;
    }
    (bits, sum)
}

impl OptimizedDecoder {
    /// Looks up [opcode | funct3 | funct7] and exposes the masks found as booleans: the flag of an
    /// invalid encoding, the flags of the formats, and the rest.
    fn opcode_lookup(
        opcode: Variable,
        funct3: Variable,
        funct7: &Constraint,
        circuit: &mut BasicAssembly,
        splitting: [usize; 2],
    ) -> (r: (Boolean, FormatBits<Boolean>, Vec<Boolean>))
        requires
            funct7.is_linear(),
            splitting@[0] <= 30,
            splitting@[1] <= 30,
            splitting@[0] + splitting@[1] >= 1 + NUM_INSTRUCTION_TYPES,
            old(circuit).next() + splitting@[0] + splitting@[1] <= usize::MAX,
        ensures
            ({
                let n = old(circuit).next();
                let first = fresh_bits(n, splitting@[0] as int);
                let second = fresh_bits(n + splitting@[0], splitting@[1] as int);
                &&& r.0 == Boolean::Is(Variable(n as usize))
                &&& r.1 == formats_from(n + 1)
                &&& r.2@ == fresh_bits(n + 7, splitting@[0] + splitting@[1] - 7)
                &&& final(circuit).next() == n + splitting@[0] + splitting@[1]
                &&& forall|w: spec_fn(Variable) -> int, t: TableContents| #[trigger]
                    final(circuit).satisfied(w, t) <==> old(circuit).satisfied(w, t)
                        && lookup_demands(
                        first,
                        second,
                        field::residue(w(opcode) + 0x80 * w(funct3) + 0x400 * funct7.value(w)),
                        w,
                        t,
                    )
                &&& forall|w: spec_fn(Variable) -> int, t: TableContents, x: OutsideValues| #[trigger]
                    final(circuit).computed(w, t, x) <==> old(circuit).computed(w, t, x)
                        && lookup_computes(
                        first,
                        second,
                        field::residue(w(opcode) + 0x80 * w(funct3) + 0x400 * funct7.value(w)),
                        w,
                        t,
                    )
            }),
    {
        let ghost n = circuit.next();
        let shifted_funct7 = funct7.scaled(Mersenne31Field::new(0x400));
        let opcode_and_funct3 = Constraint::weighted(opcode, 1).plus(
            &Constraint::weighted(funct3, 0x80),
        );
        let key = opcode_and_funct3.plus(&shifted_funct7);
        let rule_key = key.duplicate();
        assert(forall|w: spec_fn(Variable) -> int| #[trigger]
            rule_key.value(w) == key.value(w));
        proof {
            assert forall|w: spec_fn(Variable) -> int| #[trigger]
                key.value(w) == field::residue(
                    w(opcode) + 0x80 * w(funct3) + 0x400 * funct7.value(w),
                ) by {
                let (x, y, z) = (w(opcode), 0x80 * w(funct3), funct7.value(w) * 0x400);
                assert(opcode_and_funct3.value(w) == field::residue(
                    field::residue(1 * x) + field::residue(y),
                ));
                expression::lemma_combine(x, y);
                expression::lemma_combine(x + y, z);
            }
        }

        let (first, first_mask) = allocate_bits(circuit, splitting[0]);
        let ghost with_first = *circuit;
        let (second, second_mask) = allocate_bits(circuit, splitting[1]);
        let ghost with_second = *circuit;

        let mut all_bits: Vec<Boolean> = Vec::new();
        let mut i: usize = 0;
        while i < first.len()
            invariant
                i <= first@.len(),
                all_bits@ == first@.take(i as int),
            decreases first@.len() - i,
        {
            all_bits.push(first[i]);
            assert(all_bits@ =~= first@.take(i + 1));
            i = i + 1;
        }
        assert(first@.take(first@.len() as int) =~= first@);
        let mut k: usize = 0;
        while k < second.len()
            invariant
                k <= second@.len(),
                all_bits@ == first@ + second@.take(k as int),
            decreases second@.len() - k,
        {
            all_bits.push(second[k]);
            assert(all_bits@ =~= first@ + second@.take(k + 1));
            k = k + 1;
        }
        let count: usize = splitting[0] + splitting[1];
        assert(all_bits@ =~= fresh_bits(n, count as int));

        let ghost (first_seq, second_seq) = (first@, second@);
        circuit.set_values(WitnessRule::OpcodeBits(rule_key, first, second));
        let ghost with_rule = *circuit;
        assert(forall|w: spec_fn(Variable) -> int, t: TableContents| #[trigger]
            with_rule.satisfied(w, t) <==> with_second.satisfied(w, t));
        circuit.enforce_lookup_tuple_for_fixed_table(
            TableType::OpTypeBitmask,
            key,
            first_mask,
            second_mask,
        );
        proof {
            assert forall|w: spec_fn(Variable) -> int, t: TableContents, x: OutsideValues| #[trigger]
                circuit.computed(w, t, x) <==> old(circuit).computed(w, t, x) && lookup_computes(
                    first_seq,
                    second_seq,
                    field::residue(w(opcode) + 0x80 * w(funct3) + 0x400 * funct7.value(w)),
                    w,
                    t,
                ) by {
                let k = field::residue(w(opcode) + 0x80 * w(funct3) + 0x400 * funct7.value(w));
                let rule = WitnessRule::OpcodeBits(rule_key, first, second);
                assert(key.value(w) == k && rule_key.value(w) == k);
                assert(lookup_computes(first@, second@, k, w, t) ==> rule.respected(w, t, x));
                assert(rule->OpcodeBits_0.value(w) == k);
                assert(rule.respected(w, t, x) ==> lookup_computes(first@, second@, k, w, t)) by {
                    if rule.respected(w, t, x) {
                        assert forall|a: int, b: int| #[trigger]
                            t.holds(TableType::OpTypeBitmask, k, a, b) implies
                            assembly::holds_bits(first@, a, w) && assembly::holds_bits(
                            second@,
                            b,
                            w,
                        ) by {
                            assert(t.holds(
                                TableType::OpTypeBitmask,
                                rule->OpcodeBits_0.value(w),
                                a,
                                b,
                            ));
                        }
                    }
                }
                assert(first@ == first_seq && second@ == second_seq);
                assert(with_rule.computed(w, t, x) <==> with_second.computed(w, t, x) && rule.respected(
                    w,
                    t,
                    x,
                ));
            }
            assert forall|w: spec_fn(Variable) -> int, t: TableContents| #[trigger]
                circuit.satisfied(w, t) <==> old(circuit).satisfied(w, t) && lookup_demands(
                    first_seq,
                    second_seq,
                    field::residue(w(opcode) + 0x80 * w(funct3) + 0x400 * funct7.value(w)),
                    w,
                    t,
                ) by {
                assert(with_rule.satisfied(w, t) <==> with_second.satisfied(w, t));
                assert(with_second.satisfied(w, t) <==> with_first.satisfied(w, t) && (forall|j: int|
                    0 <= j < splitting@[1] ==> is_boolean((#[trigger] second_seq[j]).value(w))));
                assert(key.value(w) == field::residue(
                    w(opcode) + 0x80 * w(funct3) + 0x400 * funct7.value(w),
                ));
            }
        }

        let is_invalid = all_bits[0];
        let formats = FormatBits {
            r: all_bits[1],
            i: all_bits[2],
            s: all_bits[3],
            b: all_bits[4],
            u: all_bits[5],
            j: all_bits[6],
        };
        let mut other_bits: Vec<Boolean> = Vec::new();
        let mut m: usize = 7;
        while m < all_bits.len()
            invariant
                7 <= m <= all_bits@.len(),
                all_bits@ == fresh_bits(n, count as int),
                other_bits@ == fresh_bits(n + 7, m - 7),
            decreases all_bits@.len() - m,
        {
            other_bits.push(all_bits[m]);
            assert(other_bits@ =~= fresh_bits(n + 7, m + 1 - 7));
            m = m + 1;
        }
        (is_invalid, formats, other_bits)
    }
}

/// Format flags on the variables from `start` on.
pub open spec fn formats_from(start: int) -> FormatBits<Boolean> {
    FormatBits {
        r: Boolean::Is(Variable(start as usize)),
        i: Boolean::Is(Variable((start + 1) as usize)),
        s: Boolean::Is(Variable((start + 2) as usize)),
        b: Boolean::Is(Variable((start + 3) as usize)),
        u: Boolean::Is(Variable((start + 4) as usize)),
        j: Boolean::Is(Variable((start + 5) as usize)),
    }
}

/// The instruction to be decoded, as two halves of 16 bits.
#[derive(Clone, Copy, Debug)]
pub struct DecoderInput {
    pub instruction: Register,
}

/// The fields of an instruction. Those that are not variables of their own are linear.
pub struct OptimizedDecoderOutput {
    pub rs1: Variable,
    pub rs2: Constraint,
    pub rd: Constraint,
    pub imm: Register,
    pub funct3: Variable,
    pub funct7: Constraint,
    pub funct12: Constraint,
}

/// The chunk variables, from `start` on.
pub open spec fn chunks_from(start: int) -> InstructionChunks<Variable> {
    InstructionChunks {
        opcode: Variable(start as usize),
        imm4_1: Variable((start + 1) as usize),
        funct3: Variable((start + 2) as usize),
        rs1_low: Variable((start + 3) as usize),
        rs1_high: Variable((start + 4) as usize),
        rs2_high: Variable((start + 5) as usize),
        imm10_5: Variable((start + 6) as usize),
        sign_bit: Variable((start + 7) as usize),
    }
}

/// What is demanded of the chunks of an instruction: their widths, and that the two bits without
/// a variable are bits.
pub open spec fn chunk_demands(
    low: int,
    high: int,
    c: InstructionChunks<int>,
    t: TableContents,
) -> bool {
    &&& is_boolean(c.rs1_low)
    &&& is_boolean(c.sign_bit)
    &&& t.holds(
        TableType::QuickDecodeDecompositionCheck4x4x4,
        field::residue(c.imm4_1),
        field::residue(c.rs1_high),
        field::residue(c.rs2_high),
    )
    &&& t.holds(
        TableType::QuickDecodeDecompositionCheck7x3x6,
        field::residue(c.opcode),
        field::residue(c.funct3),
        field::residue(c.imm10_5),
    )
    &&& is_boolean(imm11_value(low, c))
    &&& is_boolean(rs2_low_value(high, c))
}

/// Allocates the chunk variables of an instruction.
fn allocate_chunks(circuit: &mut BasicAssembly, instruction: Register) -> (r: InstructionChunks<
    Variable,
>)
    requires
        old(circuit).next() + 8 <= usize::MAX,
    ensures
        r == chunks_from(old(circuit).next()),
        final(circuit).next() == old(circuit).next() + 8,
        forall|w: spec_fn(Variable) -> int, t: TableContents| #[trigger]
            final(circuit).satisfied(w, t) <==> old(circuit).satisfied(w, t) && is_boolean(
                w(r.rs1_low),
            ) && is_boolean(w(r.sign_bit)),
        forall|w: spec_fn(Variable) -> int, t: TableContents, x: OutsideValues| #[trigger]
            final(circuit).computed(w, t, x) <==> old(circuit).computed(w, t, x)
                && assembly::chunk_values(r, w) == assembly::chunks_of(
                w(instruction.low),
                w(instruction.high),
            ),
{
    let opcode = circuit.add_variable();
    let imm4_1 = circuit.add_variable();
    let funct3 = circuit.add_variable();
    let ghost with_funct3 = *circuit;
    assert(forall|w: spec_fn(Variable) -> int, t: TableContents| #[trigger]
        with_funct3.satisfied(w, t) <==> old(circuit).satisfied(w, t));
    let rs1_low = circuit.add_boolean_variable();
    let ghost with_rs1_low = *circuit;
    let rs1_high = circuit.add_variable();
    let rs2_high = circuit.add_variable();
    let imm10_5 = circuit.add_variable();
    let ghost with_imm10_5 = *circuit;
    assert(forall|w: spec_fn(Variable) -> int, t: TableContents| #[trigger]
        with_imm10_5.satisfied(w, t) <==> with_rs1_low.satisfied(w, t));
    let sign_bit = circuit.add_boolean_variable();
    let ghost with_sign_bit = *circuit;
    let n: usize = opcode.0;
    let chunks = InstructionChunks {
        opcode,
        imm4_1,
        funct3,
        rs1_low: Variable(n + 3),
        rs1_high,
        rs2_high,
        imm10_5,
        sign_bit: Variable(n + 7),
    };
    circuit.set_values(WitnessRule::Chunks(instruction, chunks));
    assert(forall|w: spec_fn(Variable) -> int, t: TableContents| #[trigger]
        circuit.satisfied(w, t) <==> with_sign_bit.satisfied(w, t));
    assert(forall|w: spec_fn(Variable) -> int, t: TableContents, x: OutsideValues| #[trigger]
        with_sign_bit.computed(w, t, x) <==> old(circuit).computed(w, t, x));
    chunks
}

/// What remains of `total` after taking away four weighted variables, times a constant.
fn rest_of(
    total: Variable,
    a: (Variable, u32),
    b: (Variable, u32),
    c: (Variable, u32),
    d: (Variable, u32),
    scale: Mersenne31Field,
) -> (r: Constraint)
    ensures
        r.is_linear(),
        forall|w: spec_fn(Variable) -> int| #[trigger]
            r.value(w) == field::residue(
                (w(total) - a.1 * w(a.0) - b.1 * w(b.0) - c.1 * w(c.0) - d.1 * w(d.0)) * scale@,
            ),
{
    let e0 = Constraint::weighted(total, 1);
    let e1 = e0.minus(&Constraint::weighted(a.0, a.1));
    let e2 = e1.minus(&Constraint::weighted(b.0, b.1));
    let e3 = e2.minus(&Constraint::weighted(c.0, c.1));
    let e4 = e3.minus(&Constraint::weighted(d.0, d.1));
    let r = e4.scaled(scale);
    proof {
        assert forall|w: spec_fn(Variable) -> int| #[trigger]
            r.value(w) == field::residue(
                (w(total) - a.1 * w(a.0) - b.1 * w(b.0) - c.1 * w(c.0) - d.1 * w(d.0)) * scale@,
            ) by {
            let x0 = w(total);
            let x1 = x0 - a.1 * w(a.0);
            let x2 = x1 - b.1 * w(b.0);
            let x3 = x2 - c.1 * w(c.0);
            let x4 = x3 - d.1 * w(d.0);
            assert(e0.value(w) == field::residue(1 * x0));
            expression::lemma_combine(x0, a.1 * w(a.0));
            assert(e1.value(w) == field::residue(x1));
            expression::lemma_combine(x1, b.1 * w(b.0));
            assert(e2.value(w) == field::residue(x2));
            expression::lemma_combine(x2, c.1 * w(c.0));
            assert(e3.value(w) == field::residue(x3));
            expression::lemma_combine(x3, d.1 * w(d.0));
            assert(e4.value(w) == field::residue(x4));
            field::lemma_residue_absorb(x4, scale@);
        }
    }
    r
}

/// Demands that a linear polynomial is zero or one.
fn demand_boolean(circuit: &mut BasicAssembly, c: &Constraint)
    requires
        c.is_linear(),
    ensures
        final(circuit).next() == old(circuit).next(),
        final(circuit).rules() == old(circuit).rules(),
        forall|w: spec_fn(Variable) -> int, t: TableContents| #[trigger]
            final(circuit).satisfied(w, t) <==> old(circuit).satisfied(w, t) && is_boolean(
                c.value(w),
            ),
{
    let minus_one = c.duplicate().minus(&Constraint::constant(1));
    let product = c.times(&minus_one);
    proof {
        assert forall|w: spec_fn(Variable) -> int|
            (#[trigger] product.value(w) == 0) <==> is_boolean(c.value(w)) by {
            let x = c.value(w);
            assert(minus_one.value(w) == field::residue(x - field::residue(1)));
            field::lemma_residue_absorb(x, x - 1);
        }
    }
    circuit.add_constraint(product);
}

/// Checks the widths of the chunks, and that the two bits without a variable are bits; returns
/// those two.
fn check_chunks(
    circuit: &mut BasicAssembly,
    instruction: Register,
    chunks: InstructionChunks<Variable>,
) -> (r: (Constraint, Constraint))
    ensures
        r.0.is_linear(),
        r.1.is_linear(),
        forall|w: spec_fn(Variable) -> int| #[trigger]
            r.0.value(w) == imm11_value(w(instruction.low), assembly::chunk_values(chunks, w)),
        forall|w: spec_fn(Variable) -> int| #[trigger]
            r.1.value(w) == rs2_low_value(w(instruction.high), assembly::chunk_values(chunks, w)),
        final(circuit).next() == old(circuit).next(),
        final(circuit).rules() == old(circuit).rules(),
        forall|w: spec_fn(Variable) -> int, t: TableContents| #[trigger]
            final(circuit).satisfied(w, t) && is_boolean(w(chunks.rs1_low)) && is_boolean(
                w(chunks.sign_bit),
            ) <==> old(circuit).satisfied(w, t) && chunk_demands(
                w(instruction.low),
                w(instruction.high),
                assembly::chunk_values(chunks, w),
                t,
            ),
        forall|w: spec_fn(Variable) -> int, t: TableContents| #[trigger]
            final(circuit).satisfied(w, t) ==> old(circuit).satisfied(w, t),
{
    circuit.enforce_lookup_tuple_for_fixed_table(
        TableType::QuickDecodeDecompositionCheck4x4x4,
        Constraint::weighted(chunks.imm4_1, 1),
        Constraint::weighted(chunks.rs1_high, 1),
        Constraint::weighted(chunks.rs2_high, 1),
    );
    let ghost first = *circuit;
    circuit.enforce_lookup_tuple_for_fixed_table(
        TableType::QuickDecodeDecompositionCheck7x3x6,
        Constraint::weighted(chunks.opcode, 1),
        Constraint::weighted(chunks.funct3, 1),
        Constraint::weighted(chunks.imm10_5, 1),
    );
    let ghost second = *circuit;
    let imm11 = rest_of(
        instruction.low,
        (chunks.opcode, 1),
        (chunks.imm4_1, 0x100),
        (chunks.funct3, 0x1000),
        (chunks.rs1_low, 0x8000),
        Mersenne31Field::new(0x100_0000),
    );
    demand_boolean(circuit, &imm11);
    let ghost third = *circuit;
    let rs2_low = rest_of(
        instruction.high,
        (chunks.rs1_high, 1),
        (chunks.rs2_high, 0x20),
        (chunks.imm10_5, 0x200),
        (chunks.sign_bit, 0x8000),
        Mersenne31Field::new(0x800_0000),
    );
    demand_boolean(circuit, &rs2_low);
    proof {
        assert forall|w: spec_fn(Variable) -> int, t: TableContents| #[trigger]
            circuit.satisfied(w, t) && is_boolean(w(chunks.rs1_low)) && is_boolean(
                w(chunks.sign_bit),
            ) <==> old(circuit).satisfied(w, t) && chunk_demands(
                w(instruction.low),
                w(instruction.high),
                assembly::chunk_values(chunks, w),
                t,
            ) by {
            assert(circuit.satisfied(w, t) <==> third.satisfied(w, t) && is_boolean(
                rs2_low.value(w),
            ));
            assert(third.satisfied(w, t) <==> second.satisfied(w, t) && is_boolean(imm11.value(w)));
            assert(second.satisfied(w, t) ==> first.satisfied(w, t));
            assert(first.satisfied(w, t) ==> old(circuit).satisfied(w, t));
        }
        assert forall|w: spec_fn(Variable) -> int, t: TableContents| #[trigger]
            circuit.satisfied(w, t) implies old(circuit).satisfied(w, t) by {
            assert(third.satisfied(w, t));
            assert(second.satisfied(w, t));
            assert(first.satisfied(w, t));
        }
    }
    (imm11, rs2_low)
}

/// The sum of two booleans.
fn either(a: Boolean, b: Boolean) -> (r: Constraint)
    ensures
        r.is_linear(),
        forall|w: spec_fn(Variable) -> int| #[trigger]
            r.value(w) == field::residue(a.value(w) + b.value(w)),
{
    let x = Constraint::weighted_boolean(a, 1);
    let y = Constraint::weighted_boolean(b, 1);
    let r = x.plus(&y);
    proof {
        assert forall|w: spec_fn(Variable) -> int| #[trigger]
            r.value(w) == field::residue(a.value(w) + b.value(w)) by {
            assert(x.value(w) == field::residue(1 * a.value(w)));
            assert(y.value(w) == field::residue(1 * b.value(w)));
            expression::lemma_combine(a.value(w), b.value(w));
        }
    }
    r
}

/// Adds `factor * value` to `sum`, where the three are known up to congruence.
fn accumulate(
    sum: Constraint,
    factor: &Constraint,
    value: &Constraint,
    Ghost(s): Ghost<spec_fn(spec_fn(Variable) -> int) -> int>,
    Ghost(f): Ghost<spec_fn(spec_fn(Variable) -> int) -> int>,
    Ghost(v): Ghost<spec_fn(spec_fn(Variable) -> int) -> int>,
) -> (r: Constraint)
    requires
        factor.is_linear(),
        value.is_linear(),
        forall|w: spec_fn(Variable) -> int| #[trigger] sum.value(w) == field::residue(s(w)),
        forall|w: spec_fn(Variable) -> int| #[trigger] factor.value(w) == field::residue(f(w)),
        forall|w: spec_fn(Variable) -> int| #[trigger] value.value(w) == field::residue(v(w)),
    ensures
        forall|w: spec_fn(Variable) -> int| #[trigger]
            r.value(w) == field::residue(s(w) + f(w) * v(w)),
{
    let product = factor.times(value);
    let r = sum.plus(&product);
    proof {
        assert forall|w: spec_fn(Variable) -> int| #[trigger]
            r.value(w) == field::residue(s(w) + f(w) * v(w)) by {
            assert(product.value(w) == field::residue(factor.value(w) * value.value(w)));
            assert(sum.value(w) == field::residue(s(w)));
            expression::lemma_combine(f(w), v(w));
            expression::lemma_combine(s(w), f(w) * v(w));
        }
    }
    r
}

/// The sum of two weighted variables.
fn weighted_pair(a: (Variable, u32), b: (Variable, u32)) -> (r: Constraint)
    ensures
        r.is_linear(),
        forall|w: spec_fn(Variable) -> int| #[trigger]
            r.value(w) == field::residue(a.1 * w(a.0) + b.1 * w(b.0)),
{
    let r = Constraint::weighted(a.0, a.1).plus(&Constraint::weighted(b.0, b.1));
    proof {
        assert forall|w: spec_fn(Variable) -> int| #[trigger]
            r.value(w) == field::residue(a.1 * w(a.0) + b.1 * w(b.0)) by {
            expression::lemma_combine(a.1 * w(a.0), b.1 * w(b.0));
        }
    }
    r
}

/// A boolean as a polynomial.
fn flag(b: Boolean) -> (r: Constraint)
    ensures
        r.is_linear(),
        forall|w: spec_fn(Variable) -> int| #[trigger] r.value(w) == field::residue(b.value(w)),
{
    let r = Constraint::weighted_boolean(b, 1);
    assert forall|w: spec_fn(Variable) -> int| #[trigger]
        r.value(w) == field::residue(b.value(w)) by {
        assert(1 * b.value(w) == b.value(w));
    }
    r
}

/// The polynomial of the lower half of the immediate.
fn imm_low_expression(
    f: FormatBits<Boolean>,
    chunks: InstructionChunks<Variable>,
    imm11: &Constraint,
    rs2_low: &Constraint,
) -> (r: Constraint)
    requires
        imm11.is_linear(),
        rs2_low.is_linear(),
    ensures
        forall|w: spec_fn(Variable) -> int| #[trigger]
            r.value(w) == field::residue(
                imm_low_value(
                    format_values(f, w),
                    assembly::chunk_values(chunks, w),
                    imm11.value(w),
                    rs2_low.value(w),
                ),
            ),
{
    let ghost s0 = |w: spec_fn(Variable) -> int| 0int;
    let ghost m = |w: spec_fn(Variable) -> int| imm11.value(w);
    let ghost l = |w: spec_fn(Variable) -> int| rs2_low.value(w);
    proof {
        assert forall|w: spec_fn(Variable) -> int| #[trigger]
            imm11.value(w) == field::residue(m(w)) by {
            expression::lemma_combine(expression::sum_of(imm11@, w), 0);
        }
        assert forall|w: spec_fn(Variable) -> int| #[trigger]
            rs2_low.value(w) == field::residue(l(w)) by {
            expression::lemma_combine(expression::sum_of(rs2_low@, w), 0);
        }
    }
    let high_imm11 = imm11.scaled(Mersenne31Field::new(0x800));
    let high_rs2_low = rs2_low.scaled(Mersenne31Field::new(0x800));
    let not_u = Constraint::constant(1).minus(&flag(f.u));
    let three = either(f.i, f.s).plus(&flag(f.b));
    proof {
        assert forall|w: spec_fn(Variable) -> int| #[trigger]
            not_u.value(w) == field::residue(1 - f.u.value(w)) by {
            expression::lemma_combine(1, f.u.value(w));
        }
        assert forall|w: spec_fn(Variable) -> int| #[trigger]
            three.value(w) == field::residue(f.i.value(w) + f.s.value(w) + f.b.value(w)) by {
            expression::lemma_combine(f.i.value(w) + f.s.value(w), f.b.value(w));
        }
    }
    let ghost fi = |w: spec_fn(Variable) -> int| f.i.value(w);
    let ghost fs = |w: spec_fn(Variable) -> int| f.s.value(w);
    let ghost fb = |w: spec_fn(Variable) -> int| f.b.value(w);
    let ghost fj = |w: spec_fn(Variable) -> int| f.j.value(w);
    let ghost f_ij = |w: spec_fn(Variable) -> int| f.i.value(w) + f.j.value(w);
    let ghost f_sb = |w: spec_fn(Variable) -> int| f.s.value(w) + f.b.value(w);
    let ghost f_nu = |w: spec_fn(Variable) -> int| 1 - f.u.value(w);
    let ghost f_is = |w: spec_fn(Variable) -> int| f.i.value(w) + f.s.value(w);
    let ghost f_isb = |w: spec_fn(Variable) -> int| f.i.value(w) + f.s.value(w) + f.b.value(w);
    let ghost f_uj = |w: spec_fn(Variable) -> int| f.u.value(w) + f.j.value(w);
    let ghost v2 = |w: spec_fn(Variable) -> int| 2 * w(chunks.rs2_high);
    let ghost v3 = |w: spec_fn(Variable) -> int| 2 * w(chunks.imm4_1);
    let ghost v4 = |w: spec_fn(Variable) -> int| 0x20 * w(chunks.imm10_5);
    let ghost v5 = |w: spec_fn(Variable) -> int| 0x800 * w(chunks.sign_bit);
    let ghost v6 = |w: spec_fn(Variable) -> int| imm11.value(w) * 0x800;
    let ghost v7 = |w: spec_fn(Variable) -> int| rs2_low.value(w) * 0x800;
    let ghost v8 = |w: spec_fn(Variable) -> int| 0xf000 * w(chunks.sign_bit);
    let ghost v9 = |w: spec_fn(Variable) -> int|
        0x8000 * w(chunks.rs1_low) + 0x1000 * w(chunks.funct3);
    let ghost s1 = |w: spec_fn(Variable) -> int| s0(w) + fi(w) * l(w);
    let ghost s2 = |w: spec_fn(Variable) -> int| s1(w) + fs(w) * m(w);
    let ghost s3 = |w: spec_fn(Variable) -> int| s2(w) + f_ij(w) * v2(w);
    let ghost s4 = |w: spec_fn(Variable) -> int| s3(w) + f_sb(w) * v3(w);
    let ghost s5 = |w: spec_fn(Variable) -> int| s4(w) + f_nu(w) * v4(w);
    let ghost s6 = |w: spec_fn(Variable) -> int| s5(w) + f_is(w) * v5(w);
    let ghost s7 = |w: spec_fn(Variable) -> int| s6(w) + fb(w) * v6(w);
    let ghost s8 = |w: spec_fn(Variable) -> int| s7(w) + fj(w) * v7(w);
    let ghost s9 = |w: spec_fn(Variable) -> int| s8(w) + f_isb(w) * v8(w);
    let e0 = Constraint::empty();
    let e1 = accumulate(e0, &flag(f.i), rs2_low, Ghost(s0), Ghost(fi), Ghost(l));
    let e2 = accumulate(e1, &flag(f.s), imm11, Ghost(s1), Ghost(fs), Ghost(m));
    let e3 = accumulate(
        e2,
        &either(f.i, f.j),
        &Constraint::weighted(chunks.rs2_high, 2),
        Ghost(s2),
        Ghost(f_ij),
        Ghost(v2),
    );
    let e4 = accumulate(
        e3,
        &either(f.s, f.b),
        &Constraint::weighted(chunks.imm4_1, 2),
        Ghost(s3),
        Ghost(f_sb),
        Ghost(v3),
    );
    let e5 = accumulate(
        e4,
        &not_u,
        &Constraint::weighted(chunks.imm10_5, 0x20),
        Ghost(s4),
        Ghost(f_nu),
        Ghost(v4),
    );
    let e6 = accumulate(
        e5,
        &either(f.i, f.s),
        &Constraint::weighted(chunks.sign_bit, 0x800),
        Ghost(s5),
        Ghost(f_is),
        Ghost(v5),
    );
    let e7 = accumulate(e6, &flag(f.b), &high_imm11, Ghost(s6), Ghost(fb), Ghost(v6));
    let e8 = accumulate(e7, &flag(f.j), &high_rs2_low, Ghost(s7), Ghost(fj), Ghost(v7));
    let e9 = accumulate(
        e8,
        &three,
        &Constraint::weighted(chunks.sign_bit, 0xf000),
        Ghost(s8),
        Ghost(f_isb),
        Ghost(v8),
    );
    accumulate(
        e9,
        &either(f.u, f.j),
        &weighted_pair((chunks.rs1_low, 0x8000), (chunks.funct3, 0x1000)),
        Ghost(s9),
        Ghost(f_uj),
        Ghost(v9),
    )
}

/// The polynomial of the upper half of the immediate.
fn imm_high_expression(
    f: FormatBits<Boolean>,
    chunks: InstructionChunks<Variable>,
    high: Variable,
) -> (r: Constraint)
    ensures
        forall|w: spec_fn(Variable) -> int| #[trigger]
            r.value(w) == field::residue(
                imm_high_value(format_values(f, w), assembly::chunk_values(chunks, w), w(high)),
            ),
{
    let neither = Constraint::constant(1).minus(&flag(f.j)).minus(&flag(f.u));
    proof {
        assert forall|w: spec_fn(Variable) -> int| #[trigger]
            neither.value(w) == field::residue(1 - f.j.value(w) - f.u.value(w)) by {
            expression::lemma_combine(1, f.j.value(w));
            expression::lemma_combine(1 - f.j.value(w), f.u.value(w));
        }
    }
    let ghost s0 = |w: spec_fn(Variable) -> int| 0int;
    let ghost fj = |w: spec_fn(Variable) -> int| f.j.value(w);
    let ghost fu = |w: spec_fn(Variable) -> int| f.u.value(w);
    let ghost fn_ = |w: spec_fn(Variable) -> int| 1 - f.j.value(w) - f.u.value(w);
    let ghost v1 = |w: spec_fn(Variable) -> int|
        0xfff0 * w(chunks.sign_bit) + 1 * w(chunks.rs1_high);
    let ghost v2 = |w: spec_fn(Variable) -> int| 1 * w(high);
    let ghost v3 = |w: spec_fn(Variable) -> int| 0xffff * w(chunks.sign_bit);
    let ghost s1 = |w: spec_fn(Variable) -> int| s0(w) + fj(w) * v1(w);
    let ghost s2 = |w: spec_fn(Variable) -> int| s1(w) + fu(w) * v2(w);
    let e1 = accumulate(
        Constraint::empty(),
        &flag(f.j),
        &weighted_pair((chunks.sign_bit, 0xfff0), (chunks.rs1_high, 1)),
        Ghost(s0),
        Ghost(fj),
        Ghost(v1),
    );
    let e2 = accumulate(
        e1,
        &flag(f.u),
        &Constraint::weighted(high, 1),
        Ghost(s1),
        Ghost(fu),
        Ghost(v2),
    );
    accumulate(
        e2,
        &neither,
        &Constraint::weighted(chunks.sign_bit, 0xffff),
        Ghost(s2),
        Ghost(fn_),
        Ghost(v3),
    )
}

/// Where the decoder puts its variables: the chunks, `rs1`, the bits of the opcode table, the
/// immediate.
pub open spec fn imm_from(start: int, splitting: (int, int)) -> Register {
    Register {
        low: Variable((start + 9 + splitting.0 + splitting.1) as usize),
        high: Variable((start + 10 + splitting.0 + splitting.1) as usize),
    }
}

/// What the decoder demands of the fields and flags.
pub open spec fn field_demands(
    start: int,
    instruction: Register,
    splitting: (int, int),
    w: spec_fn(Variable) -> int,
    t: TableContents,
) -> bool {
    let c = assembly::chunk_values(chunks_from(start), w);
    &&& chunk_demands(w(instruction.low), w(instruction.high), c, t)
    &&& field::residue(w(Variable((start + 8) as usize))) == field::residue(
        2 * c.rs1_high + c.rs1_low,
    )
    &&& lookup_demands(
        fresh_bits(start + 9, splitting.0),
        fresh_bits(start + 9 + splitting.0, splitting.1),
        field::residue(opcode_key(c)),
        w,
        t,
    )
}

/// What the decoder demands of a witness.
pub open spec fn decode_demands(
    start: int,
    instruction: Register,
    splitting: (int, int),
    w: spec_fn(Variable) -> int,
    t: TableContents,
) -> bool {
    let c = assembly::chunk_values(chunks_from(start), w);
    let (low, high) = (w(instruction.low), w(instruction.high));
    let f = format_values(formats_from(start + 10), w);
    let imm = imm_from(start, splitting);
    &&& field_demands(start, instruction, splitting, w, t)
    &&& field::residue(w(imm.low)) == field::residue(
        imm_low_value(f, c, imm11_value(low, c), rs2_low_value(high, c)),
    )
    &&& field::residue(w(imm.high)) == field::residue(imm_high_value(f, c, high))
}

/// How the decoder computes the fields and flags.
pub open spec fn field_computes(
    start: int,
    instruction: Register,
    splitting: (int, int),
    w: spec_fn(Variable) -> int,
    t: TableContents,
) -> bool {
    let c = assembly::chunk_values(chunks_from(start), w);
    &&& c == assembly::chunks_of(w(instruction.low), w(instruction.high))
    &&& w(Variable((start + 8) as usize)) == field::residue(2 * c.rs1_high + c.rs1_low)
    &&& lookup_computes(
        fresh_bits(start + 9, splitting.0),
        fresh_bits(start + 9 + splitting.0, splitting.1),
        field::residue(opcode_key(c)),
        w,
        t,
    )
}

/// How the decoder computes its variables.
pub open spec fn decode_computes(
    start: int,
    instruction: Register,
    splitting: (int, int),
    w: spec_fn(Variable) -> int,
    t: TableContents,
) -> bool {
    let c = assembly::chunk_values(chunks_from(start), w);
    let (low, high) = (w(instruction.low), w(instruction.high));
    let f = format_values(formats_from(start + 10), w);
    let imm = imm_from(start, splitting);
    &&& field_computes(start, instruction, splitting, w, t)
    &&& w(imm.low) == field::residue(
        imm_low_value(f, c, imm11_value(low, c), rs2_low_value(high, c)),
    )
    &&& w(imm.high) == field::residue(imm_high_value(f, c, high))
}

proof fn lemma_opcode_key(c: InstructionChunks<int>, funct7: int)
    requires
        funct7 == field::residue(funct7_value(c)),
    ensures
        field::residue(c.opcode + 0x80 * c.funct3 + 0x400 * funct7) == field::residue(opcode_key(c)),
{
    let a = c.opcode + 0x80 * c.funct3;
    field::lemma_residue_absorb(a, 0x400 * funct7);
    field::lemma_residue_absorb(0x400, funct7_value(c));
    field::lemma_residue_absorb(a, 0x400 * funct7_value(c));
}

/// The decoder's outcome before the immediate is put together.
struct DecodedFields {
    chunks: InstructionChunks<Variable>,
    imm11: Constraint,
    rs2_low: Constraint,
    rs1: Variable,
    funct7: Constraint,
    is_invalid: Boolean,
    formats: FormatBits<Boolean>,
    other_bits: Vec<Boolean>,
}

fn decode_fields(
    instruction: Register,
    circuit: &mut BasicAssembly,
    splitting: [usize; 2],
) -> (r: DecodedFields)
    requires
        splitting@[0] <= 30,
        splitting@[1] <= 30,
        splitting@[0] + splitting@[1] >= 1 + NUM_INSTRUCTION_TYPES,
        old(circuit).next() + 9 + splitting@[0] + splitting@[1] <= usize::MAX,
    ensures
        ({
            let n = old(circuit).next();
            let parts = (splitting@[0] as int, splitting@[1] as int);
            &&& r.chunks == chunks_from(n)
            &&& r.rs1 == Variable((n + 8) as usize)
            &&& r.is_invalid == Boolean::Is(Variable((n + 9) as usize))
            &&& r.formats == formats_from(n + 10)
            &&& r.other_bits@ == fresh_bits(n + 16, parts.0 + parts.1 - 7)
            &&& r.imm11.is_linear() && r.rs2_low.is_linear() && r.funct7.is_linear()
            &&& forall|w: spec_fn(Variable) -> int| #[trigger]
                r.imm11.value(w) == imm11_value(
                    w(instruction.low),
                    assembly::chunk_values(chunks_from(n), w),
                )
            &&& forall|w: spec_fn(Variable) -> int| #[trigger]
                r.rs2_low.value(w) == rs2_low_value(
                    w(instruction.high),
                    assembly::chunk_values(chunks_from(n), w),
                )
            &&& forall|w: spec_fn(Variable) -> int| #[trigger]
                r.funct7.value(w) == field::residue(
                    funct7_value(assembly::chunk_values(chunks_from(n), w)),
                )
            &&& final(circuit).next() == n + 9 + parts.0 + parts.1
            &&& forall|w: spec_fn(Variable) -> int, t: TableContents| #[trigger]
                final(circuit).satisfied(w, t) <==> old(circuit).satisfied(w, t) && field_demands(
                    n,
                    instruction,
                    parts,
                    w,
                    t,
                )
            &&& forall|w: spec_fn(Variable) -> int, t: TableContents, x: OutsideValues| #[trigger]
                final(circuit).computed(w, t, x) <==> old(circuit).computed(w, t, x) && field_computes(
                    n,
                    instruction,
                    parts,
                    w,
                    t,
                )
        }),
{
    let ghost n = circuit.next();
    let ghost parts = (splitting@[0] as int, splitting@[1] as int);
    let chunks = allocate_chunks(circuit, instruction);
    let ghost c1 = *circuit;
    let (imm11, rs2_low) = check_chunks(circuit, instruction, chunks);
    let ghost c2 = *circuit;
    let rs1_expression = weighted_pair((chunks.rs1_high, 2), (chunks.rs1_low, 1));
    let rs1 = circuit.add_variable_from_constraint(rs1_expression);
    let ghost c3 = *circuit;
    let funct7 = weighted_pair((chunks.sign_bit, 0x40), (chunks.imm10_5, 1));
    assert forall|w: spec_fn(Variable) -> int| #[trigger]
        funct7.value(w) == field::residue(
            funct7_value(assembly::chunk_values(chunks_from(n), w)),
        ) by {
        assert(1 * w(chunks.imm10_5) == w(chunks.imm10_5));
    }
    let (is_invalid, formats, other_bits) = OptimizedDecoder::opcode_lookup(
        chunks.opcode,
        chunks.funct3,
        &funct7,
        circuit,
        splitting,
    );
    proof {
        let first = fresh_bits(n + 9, parts.0);
        let second = fresh_bits(n + 9 + parts.0, parts.1);
        assert forall|w: spec_fn(Variable) -> int, t: TableContents| #[trigger]
            circuit.satisfied(w, t) <==> old(circuit).satisfied(w, t) && field_demands(
                n,
                instruction,
                parts,
                w,
                t,
            ) by {
            let c = assembly::chunk_values(chunks, w);
            let key = field::residue(c.opcode + 0x80 * c.funct3 + 0x400 * funct7.value(w));
            lemma_opcode_key(c, funct7.value(w));
            assert(1 * w(chunks.rs1_low) == w(chunks.rs1_low));
            assert(circuit.satisfied(w, t) <==> c3.satisfied(w, t) && lookup_demands(
                first,
                second,
                key,
                w,
                t,
            ));
            assert(c3.satisfied(w, t) <==> c2.satisfied(w, t) && field::residue(w(rs1))
                == rs1_expression.value(w));
            assert(c2.satisfied(w, t) ==> c1.satisfied(w, t));
            assert(c1.satisfied(w, t) <==> old(circuit).satisfied(w, t) && is_boolean(
                w(chunks.rs1_low),
            ) && is_boolean(w(chunks.sign_bit)));
        }
        assert forall|w: spec_fn(Variable) -> int, t: TableContents, x: OutsideValues| #[trigger]
            circuit.computed(w, t, x) <==> old(circuit).computed(w, t, x) && field_computes(
                n,
                instruction,
                parts,
                w,
                t,
            ) by {
            let c = assembly::chunk_values(chunks, w);
            let key = field::residue(c.opcode + 0x80 * c.funct3 + 0x400 * funct7.value(w));
            lemma_opcode_key(c, funct7.value(w));
            assert(1 * w(chunks.rs1_low) == w(chunks.rs1_low));
            assert(circuit.computed(w, t, x) <==> c3.computed(w, t, x) && lookup_computes(
                first,
                second,
                key,
                w,
                t,
            ));
            assert(c3.computed(w, t, x) <==> c2.computed(w, t, x) && w(rs1) == rs1_expression.value(w));
            assert(c2.computed(w, t, x) <==> c1.computed(w, t, x));
        }
    }
    DecodedFields { chunks, imm11, rs2_low, rs1, funct7, is_invalid, formats, other_bits }
}

impl OptimizedDecoder {
    /// Decodes an instruction into its fields, its immediate and the flags of the opcode table:
    /// whether the encoding is invalid, which format it has, and which family it belongs to.
    pub fn decode(
        inputs: &DecoderInput,
        circuit: &mut BasicAssembly,
        splitting: [usize; 2],
    ) -> (r: (Boolean, OptimizedDecoderOutput, FormatBits<Boolean>, Vec<Boolean>))
        requires
            splitting@[0] <= 30,
            splitting@[1] <= 30,
            splitting@[0] + splitting@[1] >= 1 + NUM_INSTRUCTION_TYPES,
            old(circuit).next() + 11 + splitting@[0] + splitting@[1] <= usize::MAX,
        ensures
            ({
                let n = old(circuit).next();
                let parts = (splitting@[0] as int, splitting@[1] as int);
                &&& r.0 == Boolean::Is(Variable((n + 9) as usize))
                &&& r.2 == formats_from(n + 10)
                &&& r.3@ == fresh_bits(n + 16, parts.0 + parts.1 - 7)
                &&& is_decoder_output(r.1, n, inputs.instruction, parts)
                &&& final(circuit).next() == n + 11 + parts.0 + parts.1
                &&& forall|w: spec_fn(Variable) -> int, t: TableContents| #[trigger]
                    final(circuit).satisfied(w, t) <==> old(circuit).satisfied(w, t)
                        && decode_demands(n, inputs.instruction, parts, w, t)
                &&& forall|w: spec_fn(Variable) -> int, t: TableContents, x: OutsideValues| #[trigger]
                    final(circuit).computed(w, t, x) <==> old(circuit).computed(w, t, x)
                        && decode_computes(n, inputs.instruction, parts, w, t)
            }),
    {
        let ghost n = circuit.next();
        let ghost parts = (splitting@[0] as int, splitting@[1] as int);
        let instruction = inputs.instruction;
        let fields = decode_fields(instruction, circuit, splitting);
        let ghost with_fields = *circuit;
        let chunks = fields.chunks;

        let imm_low_polynomial = imm_low_expression(
            fields.formats,
            chunks,
            &fields.imm11,
            &fields.rs2_low,
        );
        let imm_low = circuit.add_variable_from_constraint(imm_low_polynomial);
        let ghost with_imm_low = *circuit;
        let imm_high_polynomial = imm_high_expression(fields.formats, chunks, instruction.high);
        let imm_high = circuit.add_variable_from_constraint(imm_high_polynomial);
        let imm = Register { low: imm_low, high: imm_high };
        proof {
            assert forall|w: spec_fn(Variable) -> int, t: TableContents| #[trigger]
                circuit.satisfied(w, t) <==> old(circuit).satisfied(w, t) && decode_demands(
                    n,
                    instruction,
                    parts,
                    w,
                    t,
                ) by {
                assert(circuit.satisfied(w, t) <==> with_imm_low.satisfied(w, t)
                    && field::residue(w(imm_high)) == imm_high_polynomial.value(w));
                assert(with_imm_low.satisfied(w, t) <==> with_fields.satisfied(w, t)
                    && field::residue(w(imm_low)) == imm_low_polynomial.value(w));
            }
            assert forall|w: spec_fn(Variable) -> int, t: TableContents, x: OutsideValues| #[trigger]
                circuit.computed(w, t, x) <==> old(circuit).computed(w, t, x) && decode_computes(
                    n,
                    instruction,
                    parts,
                    w,
                    t,
                ) by {
                assert(circuit.computed(w, t, x) <==> with_imm_low.computed(w, t, x) && w(imm_high)
                    == imm_high_polynomial.value(w));
                assert(with_imm_low.computed(w, t, x) <==> with_fields.computed(w, t, x) && w(imm_low)
                    == imm_low_polynomial.value(w));
            }
        }

        let rs2 = Constraint::weighted(chunks.rs2_high, 2).plus(&fields.rs2_low);
        let rd = Constraint::weighted(chunks.imm4_1, 2).plus(&fields.imm11);
        let shifted_funct7 = fields.funct7.scaled(Mersenne31Field::new(0x20));
        let rs2_copy = rs2.duplicate();
        let funct12 = rs2_copy.plus(&shifted_funct7);
        proof {
            assert forall|w: spec_fn(Variable) -> int| #[trigger]
                rs2.value(w) == field::residue(2 * w(chunks.rs2_high) + fields.rs2_low.value(w)) by {
                field::lemma_residue_absorb(2 * w(chunks.rs2_high), fields.rs2_low.value(w));
            }
            assert forall|w: spec_fn(Variable) -> int| #[trigger]
                rd.value(w) == field::residue(2 * w(chunks.imm4_1) + fields.imm11.value(w)) by {
                field::lemma_residue_absorb(2 * w(chunks.imm4_1), fields.imm11.value(w));
            }
            assert forall|w: spec_fn(Variable) -> int| #[trigger]
                funct12.value(w) == field::residue(
                    rs2.value(w) + 0x20 * fields.funct7.value(w),
                ) by {
                assert(rs2_copy.value(w) == rs2.value(w));
                field::lemma_residue_absorb(rs2.value(w), fields.funct7.value(w) * 0x20);
            }
        }
        let output = OptimizedDecoderOutput {
            rs1: fields.rs1,
            rs2,
            rd,
            imm,
            funct3: chunks.funct3,
            funct7: fields.funct7,
            funct12,
        };
        (fields.is_invalid, output, fields.formats, fields.other_bits)
    }
}

/// The outcome of decoding an instruction with variables from `start` on.
pub open spec fn is_decoder_output(
    output: OptimizedDecoderOutput,
    start: int,
    instruction: Register,
    splitting: (int, int),
) -> bool {
    &&& output.rs1 == Variable((start + 8) as usize)
    &&& output.funct3 == chunks_from(start).funct3
    &&& output.imm == imm_from(start, splitting)
    &&& is_rs2(output.rs2, start, instruction)
    &&& is_rd(output.rd, start, instruction)
    &&& is_funct7(output.funct7, start)
    &&& is_funct12(output.funct12, start, instruction)
}

/// Whether a linear polynomial is the destination register of an instruction.
pub open spec fn is_rd(c: Constraint, start: int, instruction: Register) -> bool {
    let chunks = chunks_from(start);
    &&& c.is_linear()
    &&& forall|w: spec_fn(Variable) -> int| #[trigger]
        c.value(w) == field::residue(
            2 * w(chunks.imm4_1) + imm11_value(
                w(instruction.low),
                assembly::chunk_values(chunks, w),
            ),
        )
}

/// Whether a linear polynomial is the second source register of an instruction.
pub open spec fn is_rs2(c: Constraint, start: int, instruction: Register) -> bool {
    let chunks = chunks_from(start);
    &&& c.is_linear()
    &&& forall|w: spec_fn(Variable) -> int| #[trigger]
        c.value(w) == field::residue(
            2 * w(chunks.rs2_high) + rs2_low_value(
                w(instruction.high),
                assembly::chunk_values(chunks, w),
            ),
        )
}

/// Whether a linear polynomial is the upper function field of an instruction.
pub open spec fn is_funct7(c: Constraint, start: int) -> bool {
    &&& c.is_linear()
    &&& forall|w: spec_fn(Variable) -> int| #[trigger]
        c.value(w) == field::residue(
            funct7_value(assembly::chunk_values(chunks_from(start), w)),
        )
}

/// Whether a linear polynomial is the upper twelve bits of an instruction: the second source
/// register and the upper function field.
pub open spec fn is_funct12(c: Constraint, start: int, instruction: Register) -> bool {
    let chunks = chunks_from(start);
    &&& c.is_linear()
    &&& forall|w: spec_fn(Variable) -> int| #[trigger]
        c.value(w) == field::residue(
            field::residue(
                2 * w(chunks.rs2_high) + rs2_low_value(
                    w(instruction.high),
                    assembly::chunk_values(chunks, w),
                ),
            ) + 0x20 * field::residue(funct7_value(assembly::chunk_values(chunks, w))),
        )
}

/// The key of the opcode table has the opcode in its lowest seven bits, the lower function field in
/// the next three and the upper one in the next seven.
pub proof fn law_key_of_the_opcode_table(low: u16, high: u16)
    ensures
        ({
            let word = low + 0x1_0000 * high;
            opcode_key(assembly::chunks_of(low as int, high as int)) == word % 0x80 + 0x80 * ((word
                / 0x1000) % 8) + 0x400 * (word / 0x200_0000)
        }),
{
    let word = low + 0x1_0000 * high;
    assert(word / 0x1000 == low / 0x1000 + 0x10 * high);
    assert(word % 0x80 == low % 0x80);
    assert(word / 0x200_0000 == high / 0x200);
    assert(high / 0x200 == 0x40 * ((high / 0x8000) % 2) + (high / 0x200) % 0x40) by (bit_vector);
}

/// Booleans are read as binary digits, the least one first.
pub proof fn law_digits_of_bits(bits: Seq<Boolean>, b: Boolean, w: spec_fn(Variable) -> int)
    ensures
        bits_value(seq![], w) == 0,
        bits_value(seq![b], w) == b.value(w),
        bits_value(seq![b] + bits, w) == b.value(w) + 2 * bits_value(bits, w),
    decreases bits.len(),
{
    power2::lemma2_to64();
    assert(seq![b].drop_last() =~= seq![]);
    assert(bits_value(seq![], w) == 0);
    assert(bits_value(seq![b], w) == power2::pow2(0) * b.value(w));
    assert(1 * b.value(w) == b.value(w));
    if bits.len() == 0 {
        assert(seq![b] + bits =~= seq![b]);
    } else {
        let fewer = bits.drop_last();
        let all = seq![b] + bits;
        law_digits_of_bits(fewer, b, w);
        assert(all.drop_last() =~= seq![b] + fewer);
        power2::lemma_pow2_unfold(bits.len());
        let (p, x) = (power2::pow2((bits.len() - 1) as nat) as int, bits.last().value(w));
        assert((2 * p) * x == 2 * (p * x)) by (nonlinear_arith);
    }
}

} // verus!
