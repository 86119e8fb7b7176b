//! The decoder accepts exactly the right reading of an instruction.
use crate::bits;
use crate::circuit::assembly;
use crate::circuit::assembly::{InstructionChunks, TableContents, TableType};
use crate::circuit::decoder;
use crate::circuit::decoder::{FormatBits, OptimizedDecoderOutput};
use crate::circuit::expression::{Boolean, Constraint, Register, Variable};
use crate::field;
use crate::prime;
use crate::simulator::instruction;
use crate::simulator::isa;
use vstd::arithmetic::power2;
use vstd::prelude::*;

verus! {

/// Every variable holds a canonical residue.
pub open spec fn is_canonical(w: spec_fn(Variable) -> int) -> bool {
    forall|v: Variable| 0 <= #[trigger] w(v) < 0x7fff_ffff
}

/// The two tables that check the widths of chunks hold what their names say.
pub open spec fn has_width_tables(t: TableContents) -> bool {
    &&& forall|a: int, b: int, c: int| #[trigger]
        t.holds(TableType::QuickDecodeDecompositionCheck4x4x4, a, b, c) <==> (0 <= a < 0x10 && 0
            <= b < 0x10 && 0 <= c < 0x10)
    &&& forall|a: int, b: int, c: int| #[trigger]
        t.holds(TableType::QuickDecodeDecompositionCheck7x3x6, a, b, c) <==> (0 <= a < 0x80 && 0
            <= b < 0x8 && 0 <= c < 0x40)
}

/// The word whose halves an instruction register holds.
pub open spec fn instruction_word(instruction: Register, w: spec_fn(Variable) -> int) -> u32 {
    instruction.value(w) as u32
}

/// All chunks have their widths.
spec fn chunks_in_range(c: InstructionChunks<int>) -> bool {
    &&& 0 <= c.opcode < 0x80
    &&& 0 <= c.imm4_1 < 0x10
    &&& 0 <= c.funct3 < 0x8
    &&& 0 <= c.rs1_low < 2
    &&& 0 <= c.rs1_high < 0x10
    &&& 0 <= c.rs2_high < 0x10
    &&& 0 <= c.imm10_5 < 0x40
    &&& 0 <= c.sign_bit < 2
}

/// A small number that is a multiple of `2^k` in the field, by a factor of zero or one, is that
/// multiple.
proof fn lemma_scaled_bit(d: int, factor: int, weight: int)
    requires
        factor * weight == 0x8000_0000,
        0 < weight <= 0x80,
        -0x2_0000 < d < 0x2_0000,
        decoder::is_boolean(field::residue(d * factor)),
    ensures
        d == weight * field::residue(d * factor),
        field::residue(d * factor) == 0 || field::residue(d * factor) == 1,
{
    let m = field::residue(d * factor);
    prime::lemma_boolean(m);
    field::lemma_residue_absorb(d * factor, weight);
    assert(d * factor * weight == d * 0x8000_0000) by (nonlinear_arith)
        requires
            factor * weight == 0x8000_0000,
    ;
    assert(d * 0x8000_0000 == d + d * 0x7fff_ffff);
    vstd::arithmetic::div_mod::lemma_mod_multiples_vanish(d, d, 0x7fff_ffff);
    assert(field::residue(m * weight) == field::residue(d));
    assert(m * weight == 0 || m * weight == weight) by {
        if m == 0 {
            assert(0 * weight == 0);
        } else {
            assert(1 * weight == weight);
        }
    }
    assert(weight * m == m * weight) by (nonlinear_arith);
}

/// A number below the characteristic that is congruent to a small one is that one.
proof fn lemma_small(x: int, y: int)
    requires
        0 <= x < 0x7fff_ffff,
        0 <= y < 0x7fff_ffff,
        field::residue(x) == field::residue(y),
    ensures
        x == y,
{
}

/// The fields of a word that is put together from chunks.
proof fn lemma_fields_of_chunks(
    c: InstructionChunks<int>,
    imm11: int,
    rs2_low: int,
    low: int,
    high: int,
    word: u32,
)
    requires
        chunks_in_range(c),
        0 <= imm11 < 2,
        0 <= rs2_low < 2,
        low == c.opcode + 0x80 * imm11 + 0x100 * c.imm4_1 + 0x1000 * c.funct3 + 0x8000 * c.rs1_low,
        high == c.rs1_high + 0x10 * rs2_low + 0x20 * c.rs2_high + 0x200 * c.imm10_5 + 0x8000
            * c.sign_bit,
        word == low + 0x1_0000 * high,
    ensures
        instruction::opcode_field(word) == c.opcode,
        instruction::rd_field(word) == imm11 + 2 * c.imm4_1,
        instruction::funct3_field(word) == c.funct3,
        instruction::rs1_field(word) == c.rs1_low + 2 * c.rs1_high,
        instruction::rs2_field(word) == rs2_low + 2 * c.rs2_high,
        instruction::funct7_field(word) == c.imm10_5 + 0x40 * c.sign_bit,
        instruction::funct12_field(word) == rs2_low + 2 * c.rs2_high + 0x20 * c.imm10_5 + 0x800
            * c.sign_bit,
        bits::bit_field(word, 0x8000_0000, 2) == c.sign_bit,
        bits::bit_field(word, 0x80, 2) == imm11,
        bits::bit_field(word, 0x200_0000, 0x40) == c.imm10_5,
        bits::bit_field(word, 0x100, 0x10) == c.imm4_1,
        bits::bit_field(word, 0x1000, 0x10_0000) == c.funct3 + 8 * c.rs1_low + 0x10 * high,
        bits::bit_field(word, 0x1000, 0x100) == c.funct3 + 8 * c.rs1_low + 0x10 * c.rs1_high,
        bits::bit_field(word, 0x10_0000, 2) == rs2_low,
        bits::bit_field(word, 0x20_0000, 0x400) == c.rs2_high + 0x10 * c.imm10_5,
        assembly::chunks_of(low, high) == c,
{
    let (opcode, imm4_1, funct3, rs1_low) = (
        c.opcode as u32,
        c.imm4_1 as u32,
        c.funct3 as u32,
        c.rs1_low as u32,
    );
    let (rs1_high, rs2_high, imm10_5, sign_bit) = (
        c.rs1_high as u32,
        c.rs2_high as u32,
        c.imm10_5 as u32,
        c.sign_bit as u32,
    );
    let (m, l, x, y) = (imm11 as u32, rs2_low as u32, low as u32, high as u32);
    assert(word % 0x80 == opcode && (word / 0x80) % 0x20 == m + 2 * imm4_1 && (word / 0x1000) % 8
        == funct3 && (word / 0x8000) % 0x20 == rs1_low + 2 * rs1_high && (word / 0x10_0000) % 0x20
        == l + 2 * rs2_high && (word / 0x200_0000) % 0x80 == imm10_5 + 0x40 * sign_bit && (word
        / 0x10_0000) % 0x1000 == l + 2 * rs2_high + 0x20 * imm10_5 + 0x800 * sign_bit && (word
        / 0x8000_0000) % 2 == sign_bit && (word / 0x80) % 2 == m && (word / 0x200_0000) % 0x40
        == imm10_5 && (word / 0x100) % 0x10 == imm4_1 && (word / 0x1000) % 0x10_0000 == funct3 + 8
        * rs1_low + 0x10 * y && (word / 0x1000) % 0x100 == funct3 + 8 * rs1_low + 0x10 * rs1_high
        && (word / 0x10_0000) % 2 == l && (word / 0x20_0000) % 0x400 == rs2_high + 0x10 * imm10_5
        && (x / 0x100) % 0x10 == imm4_1 && (x / 0x1000) % 8 == funct3 && (x / 0x8000) % 2
        == rs1_low && x % 0x80 == opcode && y % 0x10 == rs1_high && (y / 0x20) % 0x10 == rs2_high
        && (y / 0x200) % 0x40 == imm10_5 && (y / 0x8000) % 2 == sign_bit) by (bit_vector)
        requires
            opcode < 0x80,
            imm4_1 < 0x10,
            funct3 < 8,
            rs1_low < 2,
            rs1_high < 0x10,
            rs2_high < 0x10,
            imm10_5 < 0x40,
            sign_bit < 2,
            m < 2,
            l < 2,
            x == opcode + 0x80 * m + 0x100 * imm4_1 + 0x1000 * funct3 + 0x8000 * rs1_low,
            y == rs1_high + 0x10 * l + 0x20 * rs2_high + 0x200 * imm10_5 + 0x8000 * sign_bit,
            word == x + 0x1_0000 * y,
    ;
}

/// Whatever satisfies the chunk demands is the one way to cut the instruction.
proof fn lemma_chunks_are_unique(low: int, high: int, c: InstructionChunks<int>, t: TableContents)
    requires
        has_width_tables(t),
        0 <= low < 0x1_0000,
        0 <= high < 0x1_0000,
        0 <= c.opcode < 0x7fff_ffff,
        0 <= c.imm4_1 < 0x7fff_ffff,
        0 <= c.funct3 < 0x7fff_ffff,
        0 <= c.rs1_low < 0x7fff_ffff,
        0 <= c.rs1_high < 0x7fff_ffff,
        0 <= c.rs2_high < 0x7fff_ffff,
        0 <= c.imm10_5 < 0x7fff_ffff,
        0 <= c.sign_bit < 0x7fff_ffff,
        decoder::chunk_demands(low, high, c, t),
    ensures
        chunks_in_range(c),
        0 <= decoder::imm11_value(low, c) < 2,
        0 <= decoder::rs2_low_value(high, c) < 2,
        low == c.opcode + 0x80 * decoder::imm11_value(low, c) + 0x100 * c.imm4_1 + 0x1000
            * c.funct3 + 0x8000 * c.rs1_low,
        high == c.rs1_high + 0x10 * decoder::rs2_low_value(high, c) + 0x20 * c.rs2_high + 0x200
            * c.imm10_5 + 0x8000 * c.sign_bit,
{
    prime::lemma_boolean(c.rs1_low);
    prime::lemma_boolean(c.sign_bit);
    assert(t.holds(
        TableType::QuickDecodeDecompositionCheck4x4x4,
        c.imm4_1,
        c.rs1_high,
        c.rs2_high,
    ));
    assert(t.holds(
        TableType::QuickDecodeDecompositionCheck7x3x6,
        c.opcode,
        c.funct3,
        c.imm10_5,
    ));
    lemma_scaled_bit(
        low - c.opcode - 0x100 * c.imm4_1 - 0x1000 * c.funct3 - 0x8000 * c.rs1_low,
        0x100_0000,
        0x80,
    );
    lemma_scaled_bit(
        high - c.rs1_high - 0x20 * c.rs2_high - 0x200 * c.imm10_5 - 0x8000 * c.sign_bit,
        0x800_0000,
        0x10,
    );
}

/// A witness that satisfies the decoder reads the fields of the instruction and no others.
pub proof fn law_decoded_fields_are_right(
    start: int,
    instruction: Register,
    splitting: (int, int),
    output: OptimizedDecoderOutput,
    w: spec_fn(Variable) -> int,
    t: TableContents,
)
    requires
        is_canonical(w),
        has_width_tables(t),
        instruction.in_range(w),
        decoder::is_decoder_output(output, start, instruction, splitting),
        decoder::decode_demands(start, instruction, splitting, w, t),
    ensures
        ({
            let word = instruction_word(instruction, w);
            &&& w(decoder::chunks_from(start).opcode) == instruction::opcode_field(word)
            &&& output.rd.value(w) == instruction::rd_field(word)
            &&& w(output.rs1) == instruction::rs1_field(word)
            &&& output.rs2.value(w) == instruction::rs2_field(word)
            &&& w(output.funct3) == instruction::funct3_field(word)
            &&& output.funct7.value(w) == instruction::funct7_field(word)
            &&& output.funct12.value(w) == instruction::funct12_field(word)
        }),
{
    let (low, high) = (w(instruction.low), w(instruction.high));
    let c = assembly::chunk_values(decoder::chunks_from(start), w);
    lemma_chunks_are_unique(low, high, c, t);
    let (m, l) = (decoder::imm11_value(low, c), decoder::rs2_low_value(high, c));
    lemma_fields_of_chunks(c, m, l, low, high, instruction_word(instruction, w));
    lemma_small(w(output.rs1), 2 * c.rs1_high + c.rs1_low);
    assert(output.rd.value(w) == field::residue(2 * c.imm4_1 + m));
    assert(output.rs2.value(w) == field::residue(2 * c.rs2_high + l));
    assert(output.funct7.value(w) == field::residue(decoder::funct7_value(c)));
    field::lemma_residue_small(2 * c.imm4_1 + m);
    field::lemma_residue_small(2 * c.rs2_high + l);
    field::lemma_residue_small(decoder::funct7_value(c));
    field::lemma_residue_small(2 * c.rs2_high + l + 0x20 * decoder::funct7_value(c));
}

/// A witness that satisfies the decoder reads the registers that the instruction names.
pub proof fn law_decoded_registers_are_right(
    start: int,
    instruction: Register,
    splitting: (int, int),
    rd: Constraint,
    rs2: Constraint,
    w: spec_fn(Variable) -> int,
    t: TableContents,
)
    requires
        is_canonical(w),
        has_width_tables(t),
        instruction.in_range(w),
        decoder::is_rd(rd, start, instruction),
        decoder::is_rs2(rs2, start, instruction),
        decoder::decode_demands(start, instruction, splitting, w, t),
    ensures
        ({
            let word = instruction_word(instruction, w);
            &&& rd.value(w) == instruction::rd_field(word)
            &&& w(Variable((start + 8) as usize)) == instruction::rs1_field(word)
            &&& rs2.value(w) == instruction::rs2_field(word)
        }),
{
    let (low, high) = (w(instruction.low), w(instruction.high));
    let c = assembly::chunk_values(decoder::chunks_from(start), w);
    lemma_chunks_are_unique(low, high, c, t);
    let (m, l) = (decoder::imm11_value(low, c), decoder::rs2_low_value(high, c));
    lemma_fields_of_chunks(c, m, l, low, high, instruction_word(instruction, w));
    lemma_small(w(Variable((start + 8) as usize)), 2 * c.rs1_high + c.rs1_low);
    assert(rd.value(w) == field::residue(2 * c.imm4_1 + m));
    assert(rs2.value(w) == field::residue(2 * c.rs2_high + l));
    field::lemma_residue_small(2 * c.imm4_1 + m);
    field::lemma_residue_small(2 * c.rs2_high + l);
}

/// Which format the flags name; all of them zero where none does.
pub open spec fn one_format(f: FormatBits<int>) -> bool {
    &&& 0 <= f.r <= 1
    &&& 0 <= f.i <= 1
    &&& 0 <= f.s <= 1
    &&& 0 <= f.b <= 1
    &&& 0 <= f.u <= 1
    &&& 0 <= f.j <= 1
    &&& f.r + f.i + f.s + f.b + f.u + f.j == 1
}

/// A witness that satisfies the decoder holds the immediate of the instruction's format,
/// sign-extended to 32 bits.
#[verifier::rlimit(20)]
#[verifier::spinoff_prover]
pub proof fn law_decoded_immediate_is_right(
    start: int,
    instruction: Register,
    splitting: (int, int),
    w: spec_fn(Variable) -> int,
    t: TableContents,
)
    requires
        is_canonical(w),
        has_width_tables(t),
        instruction.in_range(w),
        decoder::decode_demands(start, instruction, splitting, w, t),
        one_format(decoder::format_values(decoder::formats_from(start + 10), w)),
    ensures
        ({
            let word = instruction_word(instruction, w);
            let f = decoder::format_values(decoder::formats_from(start + 10), w);
            let imm = decoder::imm_from(start, splitting);
            &&& imm.in_range(w)
            &&& f.i == 1 ==> imm.value(w) == isa::i_operand(word)
            &&& f.s == 1 ==> imm.value(w) == bits::sign_extended(
                instruction::s_immediate(word),
                0x1000,
            )
            &&& f.b == 1 ==> imm.value(w) == bits::sign_extended(
                instruction::b_immediate(word),
                0x2000,
            )
            &&& f.u == 1 ==> imm.value(w) == instruction::u_immediate(word)
            &&& f.j == 1 ==> imm.value(w) == bits::sign_extended(
                instruction::j_immediate(word),
                0x20_0000,
            )
        }),
{
    let (low, high) = (w(instruction.low), w(instruction.high));
    let c = assembly::chunk_values(decoder::chunks_from(start), w);
    let f = decoder::format_values(decoder::formats_from(start + 10), w);
    let imm = decoder::imm_from(start, splitting);
    let word = instruction_word(instruction, w);
    lemma_chunks_are_unique(low, high, c, t);
    let (m, l) = (decoder::imm11_value(low, c), decoder::rs2_low_value(high, c));
    lemma_fields_of_chunks(c, m, l, low, high, word);
    let (x, y) = (decoder::imm_low_value(f, c, m, l), decoder::imm_high_value(f, c, high));
    lemma_immediate_of_chunks(f, c, m, l, high);
    lemma_small(w(imm.low), x);
    lemma_small(w(imm.high), y);
}

/// What the choice by format amounts to in each format.
proof fn lemma_immediate_of_chunks(
    f: FormatBits<int>,
    c: InstructionChunks<int>,
    imm11: int,
    rs2_low: int,
    high: int,
)
    requires
        one_format(f),
        chunks_in_range(c),
        0 <= imm11 < 2,
        0 <= rs2_low < 2,
        0 <= high < 0x1_0000,
    ensures
        ({
            let x = decoder::imm_low_value(f, c, imm11, rs2_low);
            let y = decoder::imm_high_value(f, c, high);
            &&& 0 <= x < 0x1_0000
            &&& 0 <= y < 0x1_0000
            &&& f.i == 1 ==> x == rs2_low + 2 * c.rs2_high + 0x20 * c.imm10_5 + 0xf800 * c.sign_bit
                && y == 0xffff * c.sign_bit
            &&& f.s == 1 ==> x == imm11 + 2 * c.imm4_1 + 0x20 * c.imm10_5 + 0xf800 * c.sign_bit
                && y == 0xffff * c.sign_bit
            &&& f.b == 1 ==> x == 2 * c.imm4_1 + 0x20 * c.imm10_5 + 0x800 * imm11 + 0xf000
                * c.sign_bit && y == 0xffff * c.sign_bit
            &&& f.u == 1 ==> x == 0x8000 * c.rs1_low + 0x1000 * c.funct3 && y == high
            &&& f.j == 1 ==> x == 2 * c.rs2_high + 0x20 * c.imm10_5 + 0x800 * rs2_low + 0x8000
                * c.rs1_low + 0x1000 * c.funct3 && y == 0xfff0 * c.sign_bit + c.rs1_high
        }),
{
    let x = decoder::imm_low_value(f, c, imm11, rs2_low);
    let y = decoder::imm_high_value(f, c, high);
    if f.i == 1 {
        assert(x == rs2_low + 2 * c.rs2_high + 0x20 * c.imm10_5 + 0xf800 * c.sign_bit && y == 0xffff * c.sign_bit) by (nonlinear_arith)
            requires
                f.i == 1,
                f.s == 0,
                f.b == 0,
                f.u == 0,
                f.j == 0,
                x == decoder::imm_low_value(f, c, imm11, rs2_low),
                y == decoder::imm_high_value(f, c, high),
        ;
    } else if f.s == 1 {
        assert(x == imm11 + 2 * c.imm4_1 + 0x20 * c.imm10_5 + 0xf800 * c.sign_bit && y == 0xffff * c.sign_bit) by (nonlinear_arith)
            requires
                f.i == 0,
                f.s == 1,
                f.b == 0,
                f.u == 0,
                f.j == 0,
                x == decoder::imm_low_value(f, c, imm11, rs2_low),
                y == decoder::imm_high_value(f, c, high),
        ;
    } else if f.b == 1 {
        assert(x == 2 * c.imm4_1 + 0x20 * c.imm10_5 + 0x800 * imm11 + 0xf000 * c.sign_bit && y == 0xffff * c.sign_bit) by (nonlinear_arith)
            requires
                f.i == 0,
                f.s == 0,
                f.b == 1,
                f.u == 0,
                f.j == 0,
                x == decoder::imm_low_value(f, c, imm11, rs2_low),
                y == decoder::imm_high_value(f, c, high),
        ;
    } else if f.u == 1 {
        assert(x == 0x8000 * c.rs1_low + 0x1000 * c.funct3 && y == high) by (nonlinear_arith)
            requires
                f.i == 0,
                f.s == 0,
                f.b == 0,
                f.u == 1,
                f.j == 0,
                x == decoder::imm_low_value(f, c, imm11, rs2_low),
                y == decoder::imm_high_value(f, c, high),
        ;
    } else if f.j == 1 {
        assert(x == 2 * c.rs2_high + 0x20 * c.imm10_5 + 0x800 * rs2_low + 0x8000 * c.rs1_low + 0x1000 * c.funct3 && y == 0xfff0 * c.sign_bit + c.rs1_high) by (nonlinear_arith)
            requires
                f.i == 0,
                f.s == 0,
                f.b == 0,
                f.u == 0,
                f.j == 1,
                x == decoder::imm_low_value(f, c, imm11, rs2_low),
                y == decoder::imm_high_value(f, c, high),
        ;
    } else {
        assert(x == 0x20 * c.imm10_5 && y == 0xffff * c.sign_bit) by (nonlinear_arith)
            requires
                f.i == 0,
                f.s == 0,
                f.b == 0,
                f.u == 0,
                f.j == 0,
                x == decoder::imm_low_value(f, c, imm11, rs2_low),
                y == decoder::imm_high_value(f, c, high),
        ;
    }
}

/// The digits of a number make it up again.
proof fn lemma_digits(bits: Seq<Boolean>, mask: int, w: spec_fn(Variable) -> int)
    requires
        mask >= 0,
        assembly::holds_bits(bits, mask, w),
    ensures
        decoder::bits_value(bits, w) == mask % power2::pow2(bits.len()) as int,
    decreases bits.len(),
{
    if bits.len() == 0 {
        power2::lemma2_to64();
    } else {
        let k = (bits.len() - 1) as nat;
        let shorter = bits.drop_last();
        assert forall|i: int| 0 <= i < shorter.len() implies (#[trigger] shorter[i]).value(w)
            == assembly::bit_of(mask, i as nat) by {
            assert(shorter[i] == bits[i]);
        }
        lemma_digits(shorter, mask, w);
        assert(bits.last() == bits[k as int]);
        let p = power2::pow2(k) as int;
        power2::lemma_pow2_pos(k);
        power2::lemma_pow2_unfold((k + 1) as nat);
        assert(power2::pow2((k + 1) as nat) == 2 * p);
        vstd::arithmetic::div_mod::lemma_mod_breakdown(mask, p, 2);
        assert(p * 2 == 2 * p);
    }
}

/// Booleans are the digits of the number that they make up.
proof fn lemma_number_of_bits(bits: Seq<Boolean>, w: spec_fn(Variable) -> int)
    requires
        forall|i: int| 0 <= i < bits.len() ==> 0 <= (#[trigger] bits[i]).value(w) <= 1,
    ensures
        0 <= decoder::bits_value(bits, w) < power2::pow2(bits.len()),
        assembly::holds_bits(bits, decoder::bits_value(bits, w), w),
    decreases bits.len(),
{
    power2::lemma2_to64();
    if bits.len() > 0 {
        let k = (bits.len() - 1) as nat;
        let shorter = bits.drop_last();
        assert forall|i: int| 0 <= i < shorter.len() implies 0 <= (#[trigger] shorter[i]).value(w)
            <= 1 by {
            assert(shorter[i] == bits[i]);
        }
        lemma_number_of_bits(shorter, w);
        assert(bits.last() == bits[k as int]);
        let p = power2::pow2(k) as int;
        power2::lemma_pow2_pos(k);
        power2::lemma_pow2_unfold((k + 1) as nat);
        let rest = decoder::bits_value(shorter, w);
        let last = bits.last().value(w);
        let all = decoder::bits_value(bits, w);
        assert(p * last == 0 || p * last == p) by (nonlinear_arith)
            requires
                last == 0 || last == 1,
        ;
        assert forall|i: int| 0 <= i < bits.len() implies (#[trigger] bits[i]).value(w)
            == assembly::bit_of(all, i as nat) by {
            if i == k {
                vstd::arithmetic::div_mod::lemma_fundamental_div_mod_converse(all, p, last, rest);
            } else {
                assert(shorter[i] == bits[i]);
                let q = power2::pow2(i as nat) as int;
                let h = power2::pow2((k - i - 1) as nat) as int;
                power2::lemma_pow2_pos(i as nat);
                power2::lemma_pow2_adds(i as nat, (k - i) as nat);
                power2::lemma_pow2_unfold((k - i) as nat);
                assert(p * last == q * (2 * (h * last))) by (nonlinear_arith)
                    requires
                        p == q * (2 * h),
                ;
                vstd::arithmetic::div_mod::lemma_hoist_over_denominator(rest, 2 * (h * last), q as nat);
                assert(q * (2 * (h * last)) == (2 * (h * last)) * q) by (nonlinear_arith);
                assert(all / q == rest / q + 2 * (h * last));
                assert((rest / q + 2 * (h * last)) % 2 == (rest / q) % 2);
            }
        }
    }
}

/// A witness that satisfies the decoder has the flags that the opcode table holds for the
/// instruction: if that has one pair of masks under the opcode and the function fields, the flags
/// are the bits of those masks.
pub proof fn law_decoded_flags_are_those_of_the_table(
    start: int,
    instruction: Register,
    splitting: (int, int),
    masks: (int, int),
    w: spec_fn(Variable) -> int,
    t: TableContents,
)
    requires
        is_canonical(w),
        has_width_tables(t),
        instruction.in_range(w),
        0 <= splitting.0 <= 30,
        0 <= splitting.1 <= 30,
        decoder::decode_demands(start, instruction, splitting, w, t),
        ({
            let word = instruction_word(instruction, w);
            let key = instruction::opcode_field(word) + 0x80 * instruction::funct3_field(word)
                + 0x400 * instruction::funct7_field(word);
            forall|x: int, y: int| #[trigger]
                t.holds(TableType::OpTypeBitmask, key, x, y) ==> x == masks.0 && y == masks.1
        }),
    ensures
        assembly::holds_bits(decoder::fresh_bits(start + 9, splitting.0), masks.0, w),
        assembly::holds_bits(
            decoder::fresh_bits(start + 9 + splitting.0, splitting.1),
            masks.1,
            w,
        ),
{
    let (low, high) = (w(instruction.low), w(instruction.high));
    let c = assembly::chunk_values(decoder::chunks_from(start), w);
    let first = decoder::fresh_bits(start + 9, splitting.0);
    let second = decoder::fresh_bits(start + 9 + splitting.0, splitting.1);
    lemma_chunks_are_unique(low, high, c, t);
    lemma_fields_of_chunks(
        c,
        decoder::imm11_value(low, c),
        decoder::rs2_low_value(high, c),
        low,
        high,
        instruction_word(instruction, w),
    );
    field::lemma_residue_small(decoder::opcode_key(c));
    assert forall|i: int| 0 <= i < first.len() implies 0 <= (#[trigger] first[i]).value(w) <= 1 by {
        prime::lemma_boolean(first[i].value(w));
    }
    assert forall|i: int| 0 <= i < second.len() implies 0 <= (#[trigger] second[i]).value(w)
        <= 1 by {
        prime::lemma_boolean(second[i].value(w));
    }
    lemma_number_of_bits(first, w);
    lemma_number_of_bits(second, w);
    power2::lemma2_to64();
    if splitting.0 < 30 {
        power2::lemma_pow2_strictly_increases(splitting.0 as nat, 30);
    }
    if splitting.1 < 30 {
        power2::lemma_pow2_strictly_increases(splitting.1 as nat, 30);
    }
    field::lemma_residue_small(decoder::bits_value(first, w));
    field::lemma_residue_small(decoder::bits_value(second, w));
}

/// A witness that was computed by the decoder's rules satisfies what the decoder demands, as long
/// as the opcode table has a row for the instruction.
#[verifier::rlimit(40)]
#[verifier::spinoff_prover]
pub proof fn law_decoder_accepts_what_it_computes(
    start: int,
    instruction: Register,
    splitting: (int, int),
    w: spec_fn(Variable) -> int,
    t: TableContents,
    masks: (int, int),
)
    requires
        has_width_tables(t),
        instruction.in_range(w),
        0 <= splitting.0 <= 30,
        0 <= splitting.1 <= 30,
        0 <= masks.0 < power2::pow2(splitting.0 as nat),
        0 <= masks.1 < power2::pow2(splitting.1 as nat),
        decoder::decode_computes(start, instruction, splitting, w, t),
        t.holds(
            TableType::OpTypeBitmask,
            field::residue(
                decoder::opcode_key(assembly::chunk_values(decoder::chunks_from(start), w)),
            ),
            masks.0,
            masks.1,
        ),
    ensures
        decoder::decode_demands(start, instruction, splitting, w, t),
{
    let (low, high) = (w(instruction.low), w(instruction.high));
    let c = assembly::chunk_values(decoder::chunks_from(start), w);
    let first = decoder::fresh_bits(start + 9, splitting.0);
    let second = decoder::fresh_bits(start + 9 + splitting.0, splitting.1);
    power2::lemma2_to64();
    if splitting.0 < 31 {
        power2::lemma_pow2_strictly_increases(splitting.0 as nat, 31);
    }
    if splitting.1 < 31 {
        power2::lemma_pow2_strictly_increases(splitting.1 as nat, 31);
    }
    lemma_digits(first, masks.0, w);
    lemma_digits(second, masks.1, w);
    vstd::arithmetic::div_mod::lemma_small_mod(
        masks.0 as nat,
        power2::pow2(splitting.0 as nat),
    );
    vstd::arithmetic::div_mod::lemma_small_mod(
        masks.1 as nat,
        power2::pow2(splitting.1 as nat),
    );
    assert forall|i: int| 0 <= i < first.len() implies decoder::is_boolean(
        (#[trigger] first[i]).value(w),
    ) by {
        prime::lemma_boolean(first[i].value(w));
    }
    assert forall|i: int| 0 <= i < second.len() implies decoder::is_boolean(
        (#[trigger] second[i]).value(w),
    ) by {
        prime::lemma_boolean(second[i].value(w));
    }
    lemma_cut_is_accepted(low, high, c, t);
    field::lemma_residue_absorb(2 * c.rs1_high + c.rs1_low, 0);
    let f = decoder::format_values(decoder::formats_from(start + 10), w);
    let x = decoder::imm_low_value(
        f,
        c,
        decoder::imm11_value(low, c),
        decoder::rs2_low_value(high, c),
    );
    field::lemma_residue_absorb(x, 0);
    field::lemma_residue_absorb(decoder::imm_high_value(f, c, high), 0);
}

/// The halves of a word are put together from the chunks that they are cut into.
proof fn lemma_halves_are_their_digits(low: int, high: int)
    requires
        0 <= low < 0x1_0000,
        0 <= high < 0x1_0000,
    ensures
        low == low % 0x80 + 0x80 * ((low / 0x80) % 2) + 0x100 * ((low / 0x100) % 0x10) + 0x1000 * ((
        low / 0x1000) % 8) + 0x8000 * ((low / 0x8000) % 2),
        high == high % 0x10 + 0x10 * ((high / 0x10) % 2) + 0x20 * ((high / 0x20) % 0x10) + 0x200
            * ((high / 0x200) % 0x40) + 0x8000 * ((high / 0x8000) % 2),
{
    let (x, y) = (low as u32, high as u32);
    assert(x == x % 0x80 + 0x80 * ((x / 0x80) % 2) + 0x100 * ((x / 0x100) % 0x10) + 0x1000 * ((x
        / 0x1000) % 8) + 0x8000 * ((x / 0x8000) % 2) && y == y % 0x10 + 0x10 * ((y / 0x10) % 2)
        + 0x20 * ((y / 0x20) % 0x10) + 0x200 * ((y / 0x200) % 0x40) + 0x8000 * ((y / 0x8000) % 2))
        by (bit_vector)
        requires
            x < 0x1_0000,
            y < 0x1_0000,
    ;
}

/// The key under which the opcode table is asked for an instruction that was cut into its chunks.
pub(crate) proof fn lemma_key_of_cut(low: int, high: int, word: u32)
    requires
        0 <= low < 0x1_0000,
        0 <= high < 0x1_0000,
        word == low + 0x1_0000 * high,
    ensures
        field::residue(decoder::opcode_key(assembly::chunks_of(low, high)))
            == instruction::opcode_field(word) + 0x80 * instruction::funct3_field(word) + 0x400
            * instruction::funct7_field(word),
{
    let c = assembly::chunks_of(low, high);
    let m = (low / 0x80) % 2;
    let l = (high / 0x10) % 2;
    lemma_halves_are_their_digits(low, high);
    lemma_fields_of_chunks(c, m, l, low, high, word);
    field::lemma_residue_small(decoder::opcode_key(c));
}

proof fn lemma_cut_is_accepted(low: int, high: int, c: InstructionChunks<int>, t: TableContents)
    requires
        has_width_tables(t),
        0 <= low < 0x1_0000,
        0 <= high < 0x1_0000,
        c == assembly::chunks_of(low, high),
    ensures
        decoder::chunk_demands(low, high, c, t),
{
    let m = (low / 0x80) % 2;
    let l = (high / 0x10) % 2;
    lemma_halves_are_their_digits(low, high);
    assert(0x80 * m * 0x100_0000 == m + m * 0x7fff_ffff);
    assert(0x10 * l * 0x800_0000 == l + l * 0x7fff_ffff);
    vstd::arithmetic::div_mod::lemma_mod_multiples_vanish(m, m, 0x7fff_ffff);
    vstd::arithmetic::div_mod::lemma_mod_multiples_vanish(l, l, 0x7fff_ffff);
    assert(decoder::imm11_value(low, c) == m);
    assert(decoder::rs2_low_value(high, c) == l);
    prime::lemma_boolean(m);
    prime::lemma_boolean(l);
    prime::lemma_boolean(c.rs1_low);
    prime::lemma_boolean(c.sign_bit);
}

} // verus!
