//! The fields of a 32-bit instruction word.
use crate::bits;
use vstd::prelude::*;

verus! {

pub const OPCODE_LUI: u8 = 0b0110111;

pub const OPCODE_AUIPC: u8 = 0b0010111;

pub const OPCODE_JAL: u8 = 0b1101111;

pub const OPCODE_JALR: u8 = 0b1100111;

pub const OPCODE_BRANCH: u8 = 0b1100011;

pub const OP_IMM_SUBMASK: u8 = 0b0010011;

pub const OP_SUBMASK: u8 = 0b0110011;

pub const OPCODE_LOAD: u8 = 0b0000011;

pub const OPCODE_STORE: u8 = 0b0100011;

pub const OPCODE_SYSTEM: u8 = 0b1110011;

pub const SLL_FUNCT7: u8 = 0b0000000;

pub const SRL_FUNCT7: u8 = 0b0000000;

pub const SRA_FUNCT7: u8 = 0b0100000;

pub const ROT_FUNCT7: u8 = 0b0110000;

pub const SUB_FUNCT7: u8 = 0b0100000;

pub const M_EXT_FUNCT7: u8 = 0b0000001;

/// Bits 0 to 6.
pub open spec fn opcode_field(w: u32) -> int {
    bits::bit_field(w, 1, 0x80)
}

/// Bits 7 to 11.
pub open spec fn rd_field(w: u32) -> int {
    bits::bit_field(w, 0x80, 0x20)
}

/// Bits 12 to 14.
pub open spec fn funct3_field(w: u32) -> int {
    bits::bit_field(w, 0x1000, 0x8)
}

/// Bits 15 to 19.
pub open spec fn rs1_field(w: u32) -> int {
    bits::bit_field(w, 0x8000, 0x20)
}

/// Bits 20 to 24.
pub open spec fn rs2_field(w: u32) -> int {
    bits::bit_field(w, 0x10_0000, 0x20)
}

/// Bits 25 to 31.
pub open spec fn funct7_field(w: u32) -> int {
    bits::bit_field(w, 0x200_0000, 0x80)
}

/// Bits 20 to 31.
pub open spec fn funct12_field(w: u32) -> int {
    bits::bit_field(w, 0x10_0000, 0x1000)
}

/// The I-format immediate, bits 20 to 31.
pub open spec fn i_immediate(w: u32) -> int {
    funct12_field(w)
}

/// The S-format immediate: bits 25 to 31 above bits 7 to 11.
pub open spec fn s_immediate(w: u32) -> int {
    funct7_field(w) * 0x20 + rd_field(w)
}

/// The B-format immediate, a multiple of two: bit 31, bit 7, bits 25 to 30, bits 8 to 11.
pub open spec fn b_immediate(w: u32) -> int {
    bits::bit_field(w, 0x8000_0000, 2) * 0x1000 + bits::bit_field(w, 0x80, 2) * 0x800 + bits::bit_field(
        w,
        0x200_0000,
        0x40,
    ) * 0x20 + bits::bit_field(w, 0x100, 0x10) * 2
}

/// The U-format immediate: bits 12 to 31 in place, the rest zero.
pub open spec fn u_immediate(w: u32) -> int {
    bits::bit_field(w, 0x1000, 0x10_0000) * 0x1000
}

/// The J-format immediate, a multiple of two: bit 31, bits 12 to 19, bit 20, bits 21 to 30.
pub open spec fn j_immediate(w: u32) -> int {
    bits::bit_field(w, 0x8000_0000, 2) * 0x10_0000 + bits::bit_field(w, 0x1000, 0x100) * 0x1000 + bits::bit_field(
        w,
        0x10_0000,
        2,
    ) * 0x800 + bits::bit_field(w, 0x20_0000, 0x400) * 2
}

pub fn get_opcode_bits(w: u32) -> (r: u8)
    ensures
        r == opcode_field(w),
        r < 0x80,
{
    proof {
        bits::lemma_instruction_fields(w);
    }
    (w & 0x7f) as u8
}

pub fn get_rd_bits(w: u32) -> (r: u8)
    ensures
        r == rd_field(w),
        r < 32,
{
    proof {
        bits::lemma_instruction_fields(w);
    }
    ((w >> 7) & 0x1f) as u8
}

pub fn get_formal_rs1_bits(w: u32) -> (r: u8)
    ensures
        r == rs1_field(w),
        r < 32,
{
    proof {
        bits::lemma_instruction_fields(w);
    }
    ((w >> 15) & 0x1f) as u8
}

pub fn get_formal_rs2_bits(w: u32) -> (r: u8)
    ensures
        r == rs2_field(w),
        r < 32,
{
    proof {
        bits::lemma_instruction_fields(w);
    }
    ((w >> 20) & 0x1f) as u8
}

pub fn funct3_bits(w: u32) -> (r: u8)
    ensures
        r == funct3_field(w),
        r < 8,
{
    proof {
        bits::lemma_instruction_fields(w);
    }
    ((w >> 12) & 0x7) as u8
}

pub fn funct7_bits(w: u32) -> (r: u8)
    ensures
        r == funct7_field(w),
        r < 0x80,
{
    proof {
        bits::lemma_instruction_fields(w);
    }
    (w >> 25) as u8
}

pub struct ITypeOpcode;

pub struct STypeOpcode;

pub struct BTypeOpcode;

pub struct UTypeOpcode;

pub struct JTypeOpcode;

impl ITypeOpcode {
    /// The 12-bit immediate, before sign extension.
    pub fn imm(w: u32) -> (r: u32)
        ensures
            r == i_immediate(w),
            r < 0x1000,
    {
        proof {
            bits::lemma_instruction_fields(w);
        }
        w >> 20
    }
}

impl STypeOpcode {
    /// The 12-bit immediate, before sign extension.
    pub fn imm(w: u32) -> (r: u32)
        ensures
            r == s_immediate(w),
            r < 0x1000,
    {
        proof {
            bits::lemma_instruction_fields(w);
        }
        (w >> 25) * 0x20 + ((w >> 7) & 0x1f)
    }
}

impl BTypeOpcode {
    /// The 13-bit immediate, before sign extension.
    pub fn imm(w: u32) -> (r: u32)
        ensures
            r == b_immediate(w),
            r < 0x2000,
    {
        proof {
            bits::lemma_instruction_fields(w);
        }
        (w >> 31) * 0x1000 + ((w >> 7) & 0x1) * 0x800 + ((w >> 25) & 0x3f) * 0x20 + ((w >> 8) & 0xf)
            * 2
    }
}

impl UTypeOpcode {
    /// The 32-bit immediate.
    pub fn imm(w: u32) -> (r: u32)
        ensures
            r == u_immediate(w),
    {
        proof {
            bits::lemma_instruction_fields(w);
        }
        (w >> 12) * 0x1000
    }
}

impl JTypeOpcode {
    /// The 21-bit immediate, before sign extension.
    pub fn imm(w: u32) -> (r: u32)
        ensures
            r == j_immediate(w),
            r < 0x20_0000,
    {
        proof {
            bits::lemma_instruction_fields(w);
        }
        (w >> 31) * 0x10_0000 + ((w >> 12) & 0xff) * 0x1000 + ((w >> 20) & 0x1) * 0x800 + ((w >> 21)
            & 0x3ff) * 2
    }
}

} // verus!
