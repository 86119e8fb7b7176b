//! What an instruction asks for, as a function of its word and of its operands.
use crate::bits;
use crate::bits::{
    sign_extend, sign_extend_16, sign_extend_8, zero_extend_16, zero_extend_8,
};
use crate::field;
use crate::field::Mersenne31Field;
use crate::simulator::config::MachineConfig;
use crate::simulator::instruction;
use crate::simulator::instruction::{
    funct3_bits, funct7_bits, get_opcode_bits, BTypeOpcode, ITypeOpcode, JTypeOpcode, STypeOpcode,
    UTypeOpcode, M_EXT_FUNCT7, OPCODE_AUIPC, OPCODE_BRANCH, OPCODE_JAL, OPCODE_JALR, OPCODE_LOAD,
    OPCODE_LUI, OPCODE_STORE, OPCODE_SYSTEM, OP_IMM_SUBMASK, OP_SUBMASK, ROT_FUNCT7, SLL_FUNCT7,
    SRA_FUNCT7, SRL_FUNCT7, SUB_FUNCT7,
};
use vstd::prelude::*;

verus! {

/// The five loads.
#[derive(Clone, Copy, PartialEq, Eq, Structural, Debug)]
pub enum LoadKind {
    Byte,
    Half,
    Word,
    ByteUnsigned,
    HalfUnsigned,
}

/// What remains to be done once the operands are known.
#[derive(Clone, Copy, PartialEq, Eq, Structural, Debug)]
pub enum Action {
    /// Write `value` into the destination register and continue at `next_pc`.
    WriteRegister { value: u32, next_pc: u32 },
    /// Write nothing and continue at `next_pc`.
    Branch { next_pc: u32 },
    /// Read memory at `address` into the destination register.
    Load { address: u32, kind: LoadKind },
    /// Write the low `length` bytes of the second operand to memory at `address`.
    Store { address: u32, length: u32 },
    /// Exchange with the control and status register `number`.
    Csr { number: u32 },
    /// Write nothing and continue with the next instruction.
    Nothing,
}

/// Why an instruction cannot be executed.
#[derive(Clone, Copy, PartialEq, Eq, Structural, Debug)]
pub enum CycleFault {
    /// The program counter is not a readable word address.
    Fetch { pc: u32 },
    /// The word encodes no supported instruction.
    UnknownOpcode { opcode: u32 },
    /// A taken jump leads to an address that is not a multiple of four.
    UnalignedJump { address: u32 },
    /// A load or a store crosses a word boundary or leaves the memory.
    MemoryAccess { address: u32 },
    /// A sign-extending load on a machine without such loads.
    SignedLoad { opcode: u32 },
    /// A CSR instruction on a machine that is not restricted to the exchange instruction.
    CsrMode,
    /// The oracle has no word to give.
    OracleRead,
    /// The machine may not request this delegation.
    DelegationNotAllowed { csr: u32 },
    /// The delegation refuses its arguments.
    DelegationRefused { csr: u32 },
}

/// Quotient rounded towards zero.
pub open spec fn truncated_quotient(a: int, b: int) -> int {
    if (a < 0) == (b < 0) {
        magnitude(a) / magnitude(b)
    } else {
        -(magnitude(a) / magnitude(b))
    }
}

/// Remainder with the sign of the dividend.
pub open spec fn truncated_remainder(a: int, b: int) -> int {
    if a < 0 {
        -(magnitude(a) % magnitude(b))
    } else {
        magnitude(a) % magnitude(b)
    }
}

pub open spec fn magnitude(a: int) -> int {
    if a < 0 {
        -a
    } else {
        a
    }
}

/// `x` rotated to the right by `by < 32` positions.
pub open spec fn rotated_right(x: u32, by: u32) -> u32 {
    if by == 0 {
        x
    } else {
        (x >> by) | (x << ((32 - by) as u32))
    }
}

/// `x` rotated to the left by `by < 32` positions.
pub open spec fn rotated_left(x: u32, by: u32) -> u32 {
    if by == 0 {
        x
    } else {
        (x << by) | (x >> ((32 - by) as u32))
    }
}

pub open spec fn flag(b: bool) -> u32 {
    if b {
        1
    } else {
        0
    }
}

/// The arithmetic shift of `x` to the right.
pub open spec fn arithmetic_shift(x: u32, by: u32) -> u32 {
    ((x as i32) >> by) as u32
}

/// The result of a register-immediate operation; `None` where no instruction is encoded.
pub open spec fn immediate_result<C: MachineConfig>(
    funct3: int,
    funct7: int,
    a: u32,
    b: u32,
) -> Option<u32> {
    let by = b % 32;
    if funct3 == 0 {
        Some(bits::wrap32(a + b))
    } else if funct3 == 1 && funct7 == 0 {
        Some(a << by)
    } else if funct3 == 5 && funct7 == 0 {
        Some(a >> by)
    } else if funct3 == 5 && funct7 == 0b0100000 && C::SUPPORT_SRA {
        Some(arithmetic_shift(a, by))
    } else if funct3 == 5 && funct7 == 0b0110000 && C::SUPPORT_ROT {
        Some(rotated_right(a, by))
    } else if funct3 == 2 {
        Some(flag(bits::signed(a) < bits::signed(b)))
    } else if funct3 == 3 {
        Some(flag(a < b))
    } else if funct3 == 4 {
        Some(a ^ b)
    } else if funct3 == 6 {
        Some(a | b)
    } else if funct3 == 7 {
        Some(a & b)
    } else {
        None
    }
}

/// The result of a register-register operation outside the multiplication extension.
pub open spec fn register_result<C: MachineConfig>(
    funct3: int,
    funct7: int,
    a: u32,
    b: u32,
) -> Option<u32> {
    let by = b % 32;
    if funct3 == 0 {
        if funct7 == 0 {
            Some(bits::wrap32(a + b))
        } else if funct7 == 0b0100000 {
            Some(bits::wrap32(a - b))
        } else {
            None
        }
    } else if funct3 == 1 && funct7 == 0b0110000 && C::SUPPORT_ROT {
        Some(rotated_left(a, by))
    } else {
        immediate_result::<C>(funct3, funct7, a, b)
    }
}

/// The result of an operation of the multiplication extension.
pub open spec fn multiplication_result<C: MachineConfig>(funct3: int, a: u32, b: u32) -> Option<
    u32,
> {
    let (sa, sb) = (bits::signed(a), bits::signed(b));
    if funct3 == 0 {
        if C::SUPPORT_MUL {
            Some(bits::wrap32(a * b))
        } else {
            None
        }
    } else if funct3 == 1 {
        if C::SUPPORT_MUL && C::SUPPORT_SIGNED_MUL {
            Some(bits::wrap32((sa * sb) / 0x1_0000_0000))
        } else {
            None
        }
    } else if funct3 == 2 {
        if C::SUPPORT_MUL && C::SUPPORT_SIGNED_MUL {
            Some(bits::wrap32((sa * b) / 0x1_0000_0000))
        } else {
            None
        }
    } else if funct3 == 3 {
        if C::SUPPORT_MUL {
            Some(bits::wrap32((a * b) / 0x1_0000_0000))
        } else {
            None
        }
    } else if funct3 == 4 {
        if C::SUPPORT_DIV && C::SUPPORT_SIGNED_DIV {
            Some(
                if b == 0 {
                    0xffff_ffff
                } else {
                    bits::wrap32(truncated_quotient(sa, sb))
                },
            )
        } else {
            None
        }
    } else if funct3 == 5 {
        if C::SUPPORT_DIV {
            Some(
                if b == 0 {
                    0xffff_ffff
                } else {
                    a / b
                },
            )
        } else {
            None
        }
    } else if funct3 == 6 {
        if C::SUPPORT_DIV && C::SUPPORT_SIGNED_DIV {
            Some(
                if b == 0 {
                    a
                } else {
                    bits::wrap32(truncated_remainder(sa, sb))
                },
            )
        } else {
            None
        }
    } else if funct3 == 7 {
        if C::SUPPORT_DIV {
            Some(
                if b == 0 {
                    a
                } else {
                    a % b
                },
            )
        } else {
            None
        }
    } else {
        None
    }
}

/// Whether a branch is taken; `None` where no branch is encoded.
pub open spec fn branch_taken(funct3: int, a: u32, b: u32) -> Option<bool> {
    if funct3 == 0 {
        Some(a == b)
    } else if funct3 == 1 {
        Some(a != b)
    } else if funct3 == 4 {
        Some(bits::signed(a) < bits::signed(b))
    } else if funct3 == 5 {
        Some(bits::signed(a) >= bits::signed(b))
    } else if funct3 == 6 {
        Some(a < b)
    } else if funct3 == 7 {
        Some(a >= b)
    } else {
        None
    }
}

/// Which modular operation `funct7` names: bits 1 and 2 joined with bit 5.
pub open spec fn mop_number(funct7: u8) -> u8 {
    ((funct7 & 0b110) >> 1) | ((funct7 & 0b100000) >> 5)
}

/// The result of a modular operation in the Mersenne-31 field.
pub open spec fn mop_result(number: u8, a: u32, b: u32) -> Option<u32> {
    let (x, y) = (field::residue(a as int), field::residue(b as int));
    if number == 0 {
        Some(field::residue(x + y) as u32)
    } else if number == 1 {
        Some(field::residue(x - y) as u32)
    } else if number == 2 {
        Some(field::residue(x * y) as u32)
    } else {
        None
    }
}

/// The kind of load that `funct3` names.
pub open spec fn load_kind(funct3: int) -> Option<LoadKind> {
    if funct3 == 0 {
        Some(LoadKind::Byte)
    } else if funct3 == 1 {
        Some(LoadKind::Half)
    } else if funct3 == 2 {
        Some(LoadKind::Word)
    } else if funct3 == 4 {
        Some(LoadKind::ByteUnsigned)
    } else if funct3 == 5 {
        Some(LoadKind::HalfUnsigned)
    } else {
        None
    }
}

impl LoadKind {
    /// Number of bytes read.
    pub open spec fn length(self) -> u32 {
        match self {
            LoadKind::Byte => 1,
            LoadKind::ByteUnsigned => 1,
            LoadKind::Half => 2,
            LoadKind::HalfUnsigned => 2,
            LoadKind::Word => 4,
        }
    }

    /// Whether the bytes read are sign-extended.
    pub open spec fn extends_sign(self) -> bool {
        self is Byte || self is Half
    }

    /// The register value made of the bytes read.
    pub open spec fn extended(self, value: u32) -> u32 {
        match self {
            LoadKind::Byte => bits::sign_extended(value as int % 0x100, 0x100),
            LoadKind::Half => bits::sign_extended(value as int % 0x1_0000, 0x1_0000),
            LoadKind::Word => value,
            LoadKind::ByteUnsigned => value % 0x100,
            LoadKind::HalfUnsigned => value % 0x1_0000,
        }
    }
}

/// A register write that continues with the following instruction.
pub open spec fn write_and_advance(w: u32, pc: u32, result: Option<u32>) -> Result<
    Action,
    CycleFault,
> {
    match result {
        Some(value) => Ok(Action::WriteRegister { value, next_pc: bits::wrap32(pc + 4) }),
        None => Err(CycleFault::UnknownOpcode { opcode: w }),
    }
}

/// A jump to `address` that links the following instruction.
pub open spec fn jump_and_link(pc: u32, address: u32) -> Result<Action, CycleFault> {
    if address % 4 != 0 {
        Err(CycleFault::UnalignedJump { address })
    } else {
        Ok(Action::WriteRegister { value: bits::wrap32(pc + 4), next_pc: address })
    }
}

/// What a SYSTEM instruction asks for.
#[verifier::opaque]
pub open spec fn system_action<C: MachineConfig>(w: u32, pc: u32, a: u32, b: u32) -> Result<
    Action,
    CycleFault,
> {
    let funct3 = instruction::funct3_field(w);
    let funct7 = instruction::funct7_field(w);
    if funct3 == 4 {
        if C::SUPPORT_MOPS && funct7 >= 64 && funct7 % 2 == 1 {
            write_and_advance(w, pc, mop_result(mop_number(funct7 as u8), a, b))
        } else {
            Ok(Action::Nothing)
        }
    } else if funct3 == 0 {
        Err(CycleFault::UnknownOpcode { opcode: w })
    } else if C::SUPPORT_STANDARD_CSRS || !C::SUPPORT_ONLY_CSRRW {
        Err(CycleFault::CsrMode)
    } else if funct3 != 1 {
        Err(CycleFault::UnknownOpcode { opcode: w })
    } else {
        Ok(Action::Csr { number: instruction::funct12_field(w) as u32 })
    }
}

/// What a conditional branch asks for.
#[verifier::opaque]
pub open spec fn branch_action(w: u32, pc: u32, a: u32, b: u32) -> Result<Action, CycleFault> {
    let target = bits::wrap32(pc + bits::sign_extended(instruction::b_immediate(w), 0x2000));
    match branch_taken(instruction::funct3_field(w), a, b) {
        None => Err(CycleFault::UnknownOpcode { opcode: w }),
        Some(taken) => if !taken {
            Ok(Action::Branch { next_pc: bits::wrap32(pc + 4) })
        } else if target % 4 != 0 {
            Err(CycleFault::UnalignedJump { address: target })
        } else {
            Ok(Action::Branch { next_pc: target })
        },
    }
}

/// The I-format immediate, sign-extended.
pub open spec fn i_operand(w: u32) -> u32 {
    bits::sign_extended(instruction::i_immediate(w), 0x1000)
}

/// What a load asks for.
#[verifier::opaque]
pub open spec fn load_action<C: MachineConfig>(w: u32, a: u32) -> Result<Action, CycleFault> {
    match load_kind(instruction::funct3_field(w)) {
        None => Err(CycleFault::UnknownOpcode { opcode: w }),
        Some(kind) => if kind.extends_sign() && !C::SUPPORT_SIGNED_LOAD {
            Err(CycleFault::SignedLoad { opcode: w })
        } else {
            Ok(Action::Load { address: bits::wrap32(a + i_operand(w)), kind })
        },
    }
}

/// What a store asks for.
#[verifier::opaque]
pub open spec fn store_action(w: u32, a: u32) -> Result<Action, CycleFault> {
    let funct3 = instruction::funct3_field(w);
    let offset = bits::sign_extended(instruction::s_immediate(w), 0x1000);
    let address = bits::wrap32(a + offset);
    if funct3 == 0 {
        Ok(Action::Store { address, length: 1 })
    } else if funct3 == 1 {
        Ok(Action::Store { address, length: 2 })
    } else if funct3 == 2 {
        Ok(Action::Store { address, length: 4 })
    } else {
        Err(CycleFault::UnknownOpcode { opcode: w })
    }
}

/// An upper immediate, alone or added to the program counter.
#[verifier::opaque]
pub open spec fn upper_action(w: u32, pc: u32) -> Result<Action, CycleFault> {
    if instruction::opcode_field(w) == OPCODE_LUI {
        write_and_advance(w, pc, Some(instruction::u_immediate(w) as u32))
    } else {
        write_and_advance(w, pc, Some(bits::wrap32(pc + instruction::u_immediate(w))))
    }
}

/// A jump relative to the program counter, or to an address in a register.
#[verifier::opaque]
pub open spec fn jump_action(w: u32, pc: u32, a: u32) -> Result<Action, CycleFault> {
    if instruction::opcode_field(w) == OPCODE_JAL {
        jump_and_link(
            pc,
            bits::wrap32(pc + bits::sign_extended(instruction::j_immediate(w), 0x20_0000)),
        )
    } else {
        let target = bits::wrap32(a + i_operand(w));
        jump_and_link(pc, (target - target % 2) as u32)
    }
}

/// Arithmetic on a register and an immediate, or on two registers.
#[verifier::opaque]
pub open spec fn arithmetic_action<C: MachineConfig>(w: u32, pc: u32, a: u32, b: u32) -> Result<
    Action,
    CycleFault,
> {
    let funct3 = instruction::funct3_field(w);
    let funct7 = instruction::funct7_field(w);
    if instruction::opcode_field(w) == OP_IMM_SUBMASK {
        write_and_advance(w, pc, immediate_result::<C>(funct3, funct7, a, i_operand(w)))
    } else if funct7 == M_EXT_FUNCT7 {
        write_and_advance(w, pc, multiplication_result::<C>(funct3, a, b))
    } else {
        write_and_advance(w, pc, register_result::<C>(funct3, funct7, a, b))
    }
}

/// What the instruction `w` at `pc` asks for, given the values of its two source registers.
pub open spec fn action_of<C: MachineConfig>(w: u32, pc: u32, a: u32, b: u32) -> Result<
    Action,
    CycleFault,
> {
    let op = instruction::opcode_field(w);
    if op == OPCODE_LUI || op == OPCODE_AUIPC {
        upper_action(w, pc)
    } else if op == OPCODE_JAL || op == OPCODE_JALR {
        jump_action(w, pc, a)
    } else if op == OPCODE_BRANCH {
        branch_action(w, pc, a, b)
    } else if op == OP_IMM_SUBMASK || op == OP_SUBMASK {
        arithmetic_action::<C>(w, pc, a, b)
    } else if op == OPCODE_LOAD {
        load_action::<C>(w, a)
    } else if op == OPCODE_STORE {
        store_action(w, a)
    } else if op == OPCODE_SYSTEM {
        system_action::<C>(w, pc, a, b)
    } else {
        Err(CycleFault::UnknownOpcode { opcode: w })
    }
}

/// The modulus of a word read in two's complement.
fn magnitude_of(x: u32) -> (r: u32)
    ensures
        r == magnitude(bits::signed(x)),
{
    if x < 0x8000_0000 {
        x
    } else {
        0u32.wrapping_sub(x)
    }
}

/// Signed division, rounding towards zero.
fn divide_signed(a: u32, b: u32) -> (r: u32)
    requires
        b != 0,
    ensures
        r == bits::wrap32(truncated_quotient(bits::signed(a), bits::signed(b))),
{
    let quotient: u32 = magnitude_of(a) / magnitude_of(b);
    if (a < 0x8000_0000) == (b < 0x8000_0000) {
        quotient
    } else {
        0u32.wrapping_sub(quotient)
    }
}

/// Signed remainder, with the sign of the dividend.
fn remainder_signed(a: u32, b: u32) -> (r: u32)
    requires
        b != 0,
    ensures
        r == bits::wrap32(truncated_remainder(bits::signed(a), bits::signed(b))),
{
    let remainder: u32 = magnitude_of(a) % magnitude_of(b);
    if a < 0x8000_0000 {
        remainder
    } else {
        0u32.wrapping_sub(remainder)
    }
}

/// The upper word of a signed 64-bit product.
fn upper_word(a: i64, b: i64) -> (r: u32)
    requires
        -0x8000_0000 <= a < 0x1_0000_0000,
        -0x8000_0000 <= b < 0x1_0000_0000,
        a < 0x8000_0000 || b < 0x8000_0000,
    ensures
        r == bits::wrap32((a * b) / 0x1_0000_0000),
{
    proof {
        assert(-0x7fff_ffff_ffff_ffff <= a * b <= 0x7fff_ffff_ffff_ffff) by (nonlinear_arith)
            requires
                -0x8000_0000 <= a < 0x1_0000_0000,
                -0x8000_0000 <= b < 0x1_0000_0000,
                a < 0x8000_0000 || b < 0x8000_0000,
        ;
    }
    let p: i64 = a * b;
    proof {
        assert((p >> 32u32) as u32 as int == ((p as int) / 0x1_0000_0000) % 0x1_0000_0000)
            by (bit_vector);
    }
    (p >> 32u32) as u32
}

/// The upper word of an unsigned 64-bit product.
fn upper_word_unsigned(a: u32, b: u32) -> (r: u32)
    ensures
        r == bits::wrap32((a * b) / 0x1_0000_0000),
{
    proof {
        assert(0 <= a * b <= 0xffff_ffff * 0xffff_ffff) by (nonlinear_arith)
            requires
                0 <= a <= 0xffff_ffff,
                0 <= b <= 0xffff_ffff,
        ;
    }
    let p: u64 = a as u64 * b as u64;
    (p / 0x1_0000_0000) as u32
}

fn rotate_right(x: u32, by: u32) -> (r: u32)
    requires
        by < 32,
    ensures
        r == rotated_right(x, by),
{
    if by == 0 {
        x
    } else {
        (x >> by) | (x << (32 - by))
    }
}

fn rotate_left(x: u32, by: u32) -> (r: u32)
    requires
        by < 32,
    ensures
        r == rotated_left(x, by),
{
    if by == 0 {
        x
    } else {
        (x << by) | (x >> (32 - by))
    }
}

fn flag_of(b: bool) -> (r: u32)
    ensures
        r == flag(b),
{
    if b {
        1
    } else {
        0
    }
}

fn less_signed(a: u32, b: u32) -> (r: bool)
    ensures
        r == (bits::signed(a) < bits::signed(b)),
{
    proof {
        bits::lemma_as_i32(a);
        bits::lemma_as_i32(b);
    }
    (a as i32) < (b as i32)
}

/// Executes a register-immediate operation.
pub fn immediate_operation<C: MachineConfig>(funct3: u8, funct7: u8, a: u32, b: u32) -> (r: Option<
    u32,
>)
    requires
        funct3 < 8,
    ensures
        r == immediate_result::<C>(funct3 as int, funct7 as int, a, b),
{
    let by: u32 = b % 32;
    match funct3 {
        0 => Some(a.wrapping_add(b)),
        1 if funct7 == SLL_FUNCT7 => Some(a << by),
        5 if funct7 == SRL_FUNCT7 => Some(a >> by),
        5 if funct7 == SRA_FUNCT7 && C::SUPPORT_SRA => Some(((a as i32) >> by) as u32),
        5 if funct7 == ROT_FUNCT7 && C::SUPPORT_ROT => Some(rotate_right(a, by)),
        2 => Some(flag_of(less_signed(a, b))),
        3 => Some(flag_of(a < b)),
        4 => Some(a ^ b),
        6 => Some(a | b),
        7 => Some(a & b),
        _ => None,
    }
}

/// Executes a register-register operation outside the multiplication extension.
pub fn register_operation<C: MachineConfig>(funct3: u8, funct7: u8, a: u32, b: u32) -> (r: Option<
    u32,
>)
    requires
        funct3 < 8,
    ensures
        r == register_result::<C>(funct3 as int, funct7 as int, a, b),
{
    match funct3 {
        0 if funct7 == 0 => Some(a.wrapping_add(b)),
        0 if funct7 == SUB_FUNCT7 => Some(a.wrapping_sub(b)),
        0 => None,
        1 if funct7 == ROT_FUNCT7 && C::SUPPORT_ROT => Some(rotate_left(a, b % 32)),
        _ => immediate_operation::<C>(funct3, funct7, a, b),
    }
}

/// Executes an operation of the multiplication extension.
pub fn multiplication_operation<C: MachineConfig>(funct3: u8, a: u32, b: u32) -> (r: Option<u32>)
    requires
        funct3 < 8,
    ensures
        r == multiplication_result::<C>(funct3 as int, a, b),
{
    proof {
        bits::lemma_as_i32(a);
        bits::lemma_as_i32(b);
    }
    match funct3 {
        0 if C::SUPPORT_MUL => Some(a.wrapping_mul(b)),
        1 if C::SUPPORT_MUL && C::SUPPORT_SIGNED_MUL => Some(
            upper_word((a as i32) as i64, (b as i32) as i64),
        ),
        2 if C::SUPPORT_MUL && C::SUPPORT_SIGNED_MUL => Some(
            upper_word((a as i32) as i64, b as i64),
        ),
        3 if C::SUPPORT_MUL => Some(upper_word_unsigned(a, b)),
        4 if C::SUPPORT_DIV && C::SUPPORT_SIGNED_DIV => if b == 0 {
            Some(0xffff_ffff)
        } else {
            Some(divide_signed(a, b))
        },
        5 if C::SUPPORT_DIV => if b == 0 {
            Some(0xffff_ffff)
        } else {
            Some(a / b)
        },
        6 if C::SUPPORT_DIV && C::SUPPORT_SIGNED_DIV => if b == 0 {
            Some(a)
        } else {
            Some(remainder_signed(a, b))
        },
        7 if C::SUPPORT_DIV => if b == 0 {
            Some(a)
        } else {
            Some(a % b)
        },
        _ => None,
    }
}

/// Decides a branch condition.
pub fn branch_condition(funct3: u8, a: u32, b: u32) -> (r: Option<bool>)
    ensures
        r == branch_taken(funct3 as int, a, b),
{
    match funct3 {
        0 => Some(a == b),
        1 => Some(a != b),
        4 => Some(less_signed(a, b)),
        5 => Some(!less_signed(a, b)),
        6 => Some(a < b),
        7 => Some(a >= b),
        _ => None,
    }
}

/// Executes a modular operation.
pub fn modular_operation(funct7: u8, a: u32, b: u32) -> (r: Option<u32>)
    ensures
        r == mop_result(mop_number(funct7), a, b),
{
    let number: u8 = ((funct7 & 0b110) >> 1) | ((funct7 & 0b100000) >> 5);
    let mut x = Mersenne31Field::from_nonreduced_u32(a);
    let y = Mersenne31Field::from_nonreduced_u32(b);
    match number {
        0 => {
            x.add_assign(&y);
        },
        1 => {
            x.sub_assign(&y);
        },
        2 => {
            x.mul_assign(&y);
        },
        _ => {
            return None;
        },
    }
    Some(x.to_reduced_u32())
}

fn load_kind_of(funct3: u8) -> (r: Option<LoadKind>)
    ensures
        r == load_kind(funct3 as int),
{
    match funct3 {
        0 => Some(LoadKind::Byte),
        1 => Some(LoadKind::Half),
        2 => Some(LoadKind::Word),
        4 => Some(LoadKind::ByteUnsigned),
        5 => Some(LoadKind::HalfUnsigned),
        _ => None,
    }
}

impl LoadKind {
    /// Number of bytes that the load reads.
    pub fn num_bytes(&self) -> (r: u32)
        ensures
            r == self.length(),
    {
        match self {
            LoadKind::Byte | LoadKind::ByteUnsigned => 1,
            LoadKind::Half | LoadKind::HalfUnsigned => 2,
            LoadKind::Word => 4,
        }
    }

    /// Widens the bytes read to a register value.
    pub fn extend(&self, value: u32) -> (r: u32)
        ensures
            r == self.extended(value),
    {
        match self {
            LoadKind::Byte => sign_extend_8(value),
            LoadKind::Half => sign_extend_16(value),
            LoadKind::Word => value,
            LoadKind::ByteUnsigned => zero_extend_8(value),
            LoadKind::HalfUnsigned => zero_extend_16(value),
        }
    }
}

/// What kinds of actions the instructions of each kind can ask for.
pub open spec fn has_shape(w: u32, pc: u32, action: Action) -> bool {
    let op = instruction::opcode_field(w);
    match action {
        Action::WriteRegister { next_pc, .. } => if op == OPCODE_JAL || op == OPCODE_JALR {
            next_pc % 4 == 0
        } else {
            op != OPCODE_BRANCH && op != OPCODE_LOAD && op != OPCODE_STORE && (op != OPCODE_SYSTEM
                || instruction::funct3_field(w) != 1) && next_pc == bits::wrap32(pc + 4)
        },
        Action::Branch { next_pc } => op == OPCODE_BRANCH && (next_pc % 4 == 0 || next_pc
            == bits::wrap32(pc + 4)),
        Action::Load { .. } => op == OPCODE_LOAD,
        Action::Store { .. } => op == OPCODE_STORE,
        Action::Csr { number } => op == OPCODE_SYSTEM && instruction::funct3_field(w) == 1
            && number == instruction::funct12_field(w),
        Action::Nothing => op == OPCODE_SYSTEM && instruction::funct3_field(w) != 1,
    }
}

proof fn lemma_shape_of_writes(w: u32, pc: u32, a: u32)
    ensures
        jump_action(w, pc, a) matches Ok(action) ==> action is WriteRegister
            && action->WriteRegister_next_pc % 4 == 0,
        upper_action(w, pc) matches Ok(action) ==> action is WriteRegister
            && action->WriteRegister_next_pc == bits::wrap32(pc + 4),
{
    reveal(jump_action);
    reveal(upper_action);
}

proof fn lemma_shape_of_arithmetic<C: MachineConfig>(w: u32, pc: u32, a: u32, b: u32)
    ensures
        arithmetic_action::<C>(w, pc, a, b) matches Ok(action) ==> action is WriteRegister
            && action->WriteRegister_next_pc == bits::wrap32(pc + 4),
{
    reveal(arithmetic_action);
}

proof fn lemma_shape_of_others<C: MachineConfig>(w: u32, pc: u32, a: u32, b: u32)
    ensures
        branch_action(w, pc, a, b) matches Ok(action) ==> action is Branch && (
        action->Branch_next_pc % 4 == 0 || action->Branch_next_pc == bits::wrap32(pc + 4)),
        load_action::<C>(w, a) matches Ok(action) ==> action is Load,
        store_action(w, a) matches Ok(action) ==> action is Store,
{
    reveal(branch_action);
    reveal(load_action);
    reveal(store_action);
}

proof fn lemma_shape_of_system<C: MachineConfig>(w: u32, pc: u32, a: u32, b: u32)
    ensures
        system_action::<C>(w, pc, a, b) matches Ok(action) ==> match action {
            Action::WriteRegister { next_pc, .. } => next_pc == bits::wrap32(pc + 4)
                && instruction::funct3_field(w) != 1,
            Action::Csr { number } => instruction::funct3_field(w) == 1 && number
                == instruction::funct12_field(w),
            Action::Nothing => instruction::funct3_field(w) != 1,
            _ => false,
        },
{
    reveal(system_action);
}

/// Every action has the shape of its instruction.
pub proof fn lemma_action_has_shape<C: MachineConfig>(w: u32, pc: u32, a: u32, b: u32)
    ensures
        action_of::<C>(w, pc, a, b) matches Ok(action) ==> has_shape(w, pc, action),
{
    lemma_shape_of_writes(w, pc, a);
    lemma_shape_of_arithmetic::<C>(w, pc, a, b);
    lemma_shape_of_others::<C>(w, pc, a, b);
    lemma_shape_of_system::<C>(w, pc, a, b);
}

/// Sign-extends a `width`-bit immediate whose values lie below `span`.
fn extend_immediate(imm: u32, width: u32) -> (r: u32)
    requires
        width == 12 && imm < 0x1000 || width == 13 && imm < 0x2000 || width == 21 && imm
            < 0x20_0000,
    ensures
        width == 12 ==> r == bits::sign_extended(imm as int, 0x1000),
        width == 13 ==> r == bits::sign_extended(imm as int, 0x2000),
        width == 21 ==> r == bits::sign_extended(imm as int, 0x20_0000),
{
    proof {
        assert(1u32 << 12u32 == 0x1000 && 1u32 << 13u32 == 0x2000 && 1u32 << 21u32 == 0x20_0000)
            by (bit_vector);
    }
    let mut value: u32 = imm;
    sign_extend(&mut value, width);
    value
}

fn write_result(w: u32, pc: u32, result: Option<u32>) -> (r: Result<Action, CycleFault>)
    ensures
        r == write_and_advance(w, pc, result),
{
    match result {
        Some(value) => Ok(Action::WriteRegister { value, next_pc: pc.wrapping_add(4) }),
        None => Err(CycleFault::UnknownOpcode { opcode: w }),
    }
}

fn jump(pc: u32, address: u32) -> (r: Result<Action, CycleFault>)
    ensures
        r == jump_and_link(pc, address),
{
    if address % 4 != 0 {
        Err(CycleFault::UnalignedJump { address })
    } else {
        Ok(Action::WriteRegister { value: pc.wrapping_add(4), next_pc: address })
    }
}

fn execute_system<C: MachineConfig>(w: u32, pc: u32, a: u32, b: u32) -> (r: Result<
    Action,
    CycleFault,
>)
    ensures
        r == system_action::<C>(w, pc, a, b),
{
    proof {
        reveal(system_action);
    }
    let funct3 = funct3_bits(w);
    let funct7 = funct7_bits(w);
    proof {
        assert(funct7 < 0x80 ==> (funct7 & 0b1000001 == 0b1000001) == (funct7 >= 64 && funct7 % 2
            == 1)) by (bit_vector);
        assert(funct3 < 8 ==> (funct3 & 0x3 == 0) == (funct3 % 4 == 0)) by (bit_vector);
    }
    if funct3 == 0b100 {
        if C::SUPPORT_MOPS && funct7 & 0b1000001 == 0b1000001 {
            write_result(w, pc, modular_operation(funct7, a, b))
        } else {
            Ok(Action::Nothing)
        }
    } else if funct3 & 0x3 == 0 {
        Err(CycleFault::UnknownOpcode { opcode: w })
    } else if C::SUPPORT_STANDARD_CSRS || !C::SUPPORT_ONLY_CSRRW {
        Err(CycleFault::CsrMode)
    } else if funct3 != 0b001 {
        Err(CycleFault::UnknownOpcode { opcode: w })
    } else {
        Ok(Action::Csr { number: ITypeOpcode::imm(w) })
    }
}

fn execute_branch(w: u32, pc: u32, a: u32, b: u32) -> (r: Result<Action, CycleFault>)
    ensures
        r == branch_action(w, pc, a, b),
{
    proof {
        reveal(branch_action);
    }
    let imm: u32 = extend_immediate(BTypeOpcode::imm(w), 13);
    let target: u32 = pc.wrapping_add(imm);
    match branch_condition(funct3_bits(w), a, b) {
        None => Err(CycleFault::UnknownOpcode { opcode: w }),
        Some(taken) => if !taken {
            Ok(Action::Branch { next_pc: pc.wrapping_add(4) })
        } else if target % 4 != 0 {
            Err(CycleFault::UnalignedJump { address: target })
        } else {
            Ok(Action::Branch { next_pc: target })
        },
    }
}

fn execute_load<C: MachineConfig>(w: u32, a: u32) -> (r: Result<Action, CycleFault>)
    ensures
        r == load_action::<C>(w, a),
{
    proof {
        reveal(load_action);
    }
    let funct3 = funct3_bits(w);
    let imm: u32 = i_operand_of(w);
    match load_kind_of(funct3) {
        None => Err(CycleFault::UnknownOpcode { opcode: w }),
        Some(kind) => if (funct3 == 0 || funct3 == 1) && !C::SUPPORT_SIGNED_LOAD {
            Err(CycleFault::SignedLoad { opcode: w })
        } else {
            Ok(Action::Load { address: a.wrapping_add(imm), kind })
        },
    }
}

fn execute_store(w: u32, a: u32) -> (r: Result<Action, CycleFault>)
    ensures
        r == store_action(w, a),
{
    proof {
        reveal(store_action);
    }
    let imm: u32 = extend_immediate(STypeOpcode::imm(w), 12);
    let address: u32 = a.wrapping_add(imm);
    match funct3_bits(w) {
        0 => Ok(Action::Store { address, length: 1 }),
        1 => Ok(Action::Store { address, length: 2 }),
        2 => Ok(Action::Store { address, length: 4 }),
        _ => Err(CycleFault::UnknownOpcode { opcode: w }),
    }
}

fn i_operand_of(w: u32) -> (r: u32)
    ensures
        r == i_operand(w),
{
    extend_immediate(ITypeOpcode::imm(w), 12)
}

fn execute_upper(w: u32, pc: u32) -> (r: Result<Action, CycleFault>)
    ensures
        r == upper_action(w, pc),
{
    proof {
        reveal(upper_action);
    }
    let imm: u32 = UTypeOpcode::imm(w);
    if get_opcode_bits(w) == OPCODE_LUI {
        write_result(w, pc, Some(imm))
    } else {
        write_result(w, pc, Some(pc.wrapping_add(imm)))
    }
}

fn execute_jump(w: u32, pc: u32, a: u32) -> (r: Result<Action, CycleFault>)
    ensures
        r == jump_action(w, pc, a),
{
    proof {
        reveal(jump_action);
    }
    if get_opcode_bits(w) == OPCODE_JAL {
        let imm: u32 = extend_immediate(JTypeOpcode::imm(w), 21);
        jump(pc, pc.wrapping_add(imm))
    } else {
        let target: u32 = a.wrapping_add(i_operand_of(w));
        jump(pc, target - target % 2)
    }
}

fn execute_arithmetic<C: MachineConfig>(w: u32, pc: u32, a: u32, b: u32) -> (r: Result<
    Action,
    CycleFault,
>)
    ensures
        r == arithmetic_action::<C>(w, pc, a, b),
{
    proof {
        reveal(arithmetic_action);
    }
    let funct3 = funct3_bits(w);
    let funct7 = funct7_bits(w);
    if get_opcode_bits(w) == OP_IMM_SUBMASK {
        write_result(w, pc, immediate_operation::<C>(funct3, funct7, a, i_operand_of(w)))
    } else if funct7 == M_EXT_FUNCT7 {
        write_result(w, pc, multiplication_operation::<C>(funct3, a, b))
    } else {
        write_result(w, pc, register_operation::<C>(funct3, funct7, a, b))
    }
}

/// Decides what the instruction `w` at `pc` asks for, given the values of its source registers.
pub fn execute<C: MachineConfig>(w: u32, pc: u32, a: u32, b: u32) -> (r: Result<
    Action,
    CycleFault,
>)
    ensures
        r == action_of::<C>(w, pc, a, b),
{
    let op = get_opcode_bits(w);
    if op == OPCODE_LUI || op == OPCODE_AUIPC {
        execute_upper(w, pc)
    } else if op == OPCODE_JAL || op == OPCODE_JALR {
        execute_jump(w, pc, a)
    } else if op == OPCODE_BRANCH {
        execute_branch(w, pc, a, b)
    } else if op == OP_IMM_SUBMASK || op == OP_SUBMASK {
        execute_arithmetic::<C>(w, pc, a, b)
    } else if op == OPCODE_LOAD {
        execute_load::<C>(w, a)
    } else if op == OPCODE_STORE {
        execute_store(w, a)
    } else if op == OPCODE_SYSTEM {
        execute_system::<C>(w, pc, a, b)
    } else {
        Err(CycleFault::UnknownOpcode { opcode: w })
    }
}

} // verus!
