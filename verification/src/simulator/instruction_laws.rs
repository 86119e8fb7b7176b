//! What each instruction does, by its encoding.
use crate::bits;
use crate::field;
use crate::simulator::abstractions::{
    Cpu, DelegationCSRProcessor, MemorySource, NonDeterminismCSRSource, TraceEvent,
};
use crate::simulator::config::MachineConfig;
use crate::simulator::instruction;
use crate::simulator::isa;
use crate::simulator::isa::{Action, CycleFault, LoadKind};
use crate::simulator::memory;
use crate::simulator::state;
use crate::simulator::state::{Effect, World};
use vstd::prelude::*;

verus! {

/// Whether a machine is about to execute the instruction `w`.
pub open spec fn is_at<N, P>(world: World<N, P>, w: int) -> bool {
    &&& world.cpu.regs.len() == 32
    &&& world.cpu.regs[0] == 0
    &&& world.cpu.pc % 4 == 0
    &&& world.words.contains_key(world.cpu.pc as u64)
    &&& world.words[world.cpu.pc as u64] == w
}

/// Whether a cycle leaves everything but the registers and the program counter as it was.
pub open spec fn keeps_surroundings<N, P>(before: World<N, P>, after: World<N, P>) -> bool {
    &&& after.words == before.words
    &&& after.writable == before.writable
    &&& after.oracle == before.oracle
    &&& after.processor == before.processor
}

/// Whether a cycle writes `value` to the register `rd`, where the register zero stays zero, and
/// changes no other register.
pub open spec fn writes_only<N, P>(
    before: World<N, P>,
    after: World<N, P>,
    rd: int,
    value: int,
) -> bool {
    &&& after.cpu.regs.len() == 32
    &&& after.cpu.regs[0] == 0
    &&& rd != 0 ==> after.cpu.regs[rd] == value
    &&& forall|i: int| 0 <= i < 32 && i != rd ==> #[trigger] after.cpu.regs[i] == before.cpu.regs[i]
}

/// Whether a cycle that reads the registers `rs1` and `rs2` writes `value` to the register `rd` and
/// goes on at `next_pc`, touches nothing else, and traces just that.
pub open spec fn writes_register<N, P>(
    before: World<N, P>,
    e: Effect<N, P>,
    rs1: int,
    rs2: int,
    rd: int,
    value: int,
    next_pc: int,
) -> bool {
    &&& writes_only(before, e.world, rd, value)
    &&& e.world.cpu.pc == next_pc
    &&& keeps_surroundings(before, e.world)
    &&& e.events == seq![
        TraceEvent::CycleStart { cpu: before.cpu },
        TraceEvent::Rs1Read { index: rs1 as u32, value: before.cpu.regs[rs1] },
        TraceEvent::Rs2Read { index: rs2 as u32, value: before.cpu.regs[rs2] },
        TraceEvent::RdWrite {
            index: rd as u32,
            old_value: before.cpu.regs[rd],
            value: value as u32,
        },
        TraceEvent::CycleEnd { cpu: e.world.cpu },
    ]
}

/// The fields of a word that is put together from fields.
proof fn lemma_encoding(w: u32, op: u32, rd: u32, f3: u32, rs1: u32, rs2: u32, f7: u32)
    requires
        op < 0x80,
        rd < 0x20,
        f3 < 8,
        rs1 < 0x20,
        rs2 < 0x20,
        f7 < 0x80,
        w == op + 0x80 * rd + 0x1000 * f3 + 0x8000 * rs1 + 0x10_0000 * rs2 + 0x200_0000 * f7,
    ensures
        instruction::opcode_field(w) == op,
        instruction::rd_field(w) == rd,
        instruction::funct3_field(w) == f3,
        instruction::rs1_field(w) == rs1,
        instruction::rs2_field(w) == rs2,
        instruction::funct7_field(w) == f7,
        instruction::funct12_field(w) == rs2 + 0x20 * f7,
        bits::bit_field(w, 0x8000_0000, 2) == f7 / 64,
        bits::bit_field(w, 0x80, 2) == rd % 2,
        bits::bit_field(w, 0x200_0000, 0x40) == f7 % 64,
        bits::bit_field(w, 0x100, 0x10) == rd / 2,
        bits::bit_field(w, 0x1000, 0x10_0000) == f3 + 8 * rs1 + 0x100 * rs2 + 0x2000 * f7,
        bits::bit_field(w, 0x1000, 0x100) == f3 + 8 * rs1,
        bits::bit_field(w, 0x10_0000, 2) == rs2 % 2,
        bits::bit_field(w, 0x20_0000, 0x400) == rs2 / 2 + 0x10 * (f7 % 64),
{
    assert(w % 0x80 == op && (w / 0x80) % 0x20 == rd && (w / 0x1000) % 8 == f3 && (w / 0x8000) % 0x20
        == rs1 && (w / 0x10_0000) % 0x20 == rs2 && (w / 0x200_0000) % 0x80 == f7 && (w / 0x10_0000)
        % 0x1000 == rs2 + 0x20 * f7 && (w / 0x8000_0000) % 2 == f7 / 64 && (w / 0x80) % 2 == rd % 2
        && (w / 0x200_0000) % 0x40 == f7 % 64 && (w / 0x100) % 0x10 == rd / 2 && (w / 0x1000)
        % 0x10_0000 == f3 + 8 * rs1 + 0x100 * rs2 + 0x2000 * f7 && (w / 0x1000) % 0x100 == f3 + 8
        * rs1 && (w / 0x10_0000) % 2 == rs2 % 2 && (w / 0x20_0000) % 0x400 == rs2 / 2 + 0x10 * (f7
        % 64)) by (bit_vector)
        requires
            op < 0x80,
            rd < 0x20,
            f3 < 8,
            rs1 < 0x20,
            rs2 < 0x20,
            f7 < 0x80,
            w == op + 0x80 * rd + 0x1000 * f3 + 0x8000 * rs1 + 0x10_0000 * rs2 + 0x200_0000 * f7,
    ;
    assert(w as int / 1 == w);
}

/// The cycle of an instruction that cannot be executed.
proof fn lemma_step_fails<
    C: MachineConfig,
    M: MemorySource,
    ND: NonDeterminismCSRSource<M>,
    CSR: DelegationCSRProcessor,
>(world: World<ND::Model, CSR::Model>, w: u32, rs1: int, rs2: int, fault: CycleFault)
    requires
        is_at(world, w as int),
        instruction::rs1_field(w) == rs1,
        instruction::rs2_field(w) == rs2,
        ({
            let b = if instruction::opcode_field(w) == 3 {
                0
            } else {
                world.cpu.regs[rs2]
            };
            isa::action_of::<C>(w, world.cpu.pc, world.cpu.regs[rs1], b) == Err::<
                Action,
                CycleFault,
            >(fault)
        }),
    ensures
        state::step::<C, M, ND, CSR>(world) == Err::<Effect<ND::Model, CSR::Model>, CycleFault>(
            fault,
        ),
{
}

/// The cycle of an instruction that writes a register.
proof fn lemma_step_writes<
    C: MachineConfig,
    M: MemorySource,
    ND: NonDeterminismCSRSource<M>,
    CSR: DelegationCSRProcessor,
>(
    world: World<ND::Model, CSR::Model>,
    w: u32,
    rs1: int,
    rs2: int,
    rd: int,
    value: u32,
    next_pc: u32,
)
    requires
        is_at(world, w as int),
        0 <= rs1 < 32,
        0 <= rs2 < 32,
        0 <= rd < 32,
        instruction::rs1_field(w) == rs1,
        instruction::rs2_field(w) == rs2,
        instruction::opcode_field(w) != 3,
        ({
            let action = isa::action_of::<C>(
                w,
                world.cpu.pc,
                world.cpu.regs[rs1],
                world.cpu.regs[rs2],
            );
            ||| action == Ok::<Action, CycleFault>(Action::WriteRegister { value, next_pc })
                && instruction::rd_field(w) == rd
            ||| action == Ok::<Action, CycleFault>(Action::Branch { next_pc }) && rd == 0 && value
                == 0
        }),
    ensures
        state::step::<C, M, ND, CSR>(world) is Ok,
        writes_register(
            world,
            state::step::<C, M, ND, CSR>(world)->Ok_0,
            rs1,
            rs2,
            rd,
            value as int,
            next_pc as int,
        ),
{
    let e = state::step::<C, M, ND, CSR>(world)->Ok_0;
    assert(e.events =~= seq![
        TraceEvent::CycleStart { cpu: world.cpu },
        TraceEvent::Rs1Read { index: rs1 as u32, value: world.cpu.regs[rs1] },
        TraceEvent::Rs2Read { index: rs2 as u32, value: world.cpu.regs[rs2] },
        TraceEvent::RdWrite { index: rd as u32, old_value: world.cpu.regs[rd], value },
        TraceEvent::CycleEnd { cpu: e.world.cpu },
    ]);
}

/// Sign extension is reading a field as a number of that width.
proof fn lemma_signed_offset(offset: int, span: int, base: u32)
    requires
        span == 0x1000 || span == 0x2000 || span == 0x20_0000,
        -span <= 2 * offset < span,
    ensures
        bits::wrap32(base + bits::sign_extended(offset % span, span)) == (base + offset)
            % 0x1_0000_0000,
        bits::sign_extended(offset % span, span) as i32 == offset,
        bits::sign_extended(offset % span, span) == offset % 0x1_0000_0000,
{
    bits::lemma_as_i32(bits::sign_extended(offset % span, span));
}

/// The digits of the offset of a branch.
proof fn lemma_branch_offset(u: int)
    requires
        0 <= u < 0x2000,
        u % 2 == 0,
    ensures
        u == 0x1000 * (u / 0x1000) + 0x800 * ((u / 0x800) % 2) + 0x20 * ((u / 0x20) % 0x40) + 2 * ((
        u / 2) % 0x10),
        0 <= u / 0x1000 < 2,
{
    let x = u as u32;
    assert(x == 0x1000 * (x / 0x1000) + 0x800 * ((x / 0x800) % 2) + 0x20 * ((x / 0x20) % 0x40) + 2
        * ((x / 2) % 0x10)) by (bit_vector)
        requires
            x < 0x2000,
            x % 2 == 0,
    ;
}

/// A branch is taken if and only if its two source registers are equal (0), differ (1), the first
/// is less than the second (4) or not (5) as signed numbers, is less (6) or not (7) as unsigned
/// numbers. It goes to the program counter plus its offset if it is taken and that is a multiple of
/// four, and to the next instruction if it is not taken; and it changes nothing else.
pub proof fn law_branches<
    C: MachineConfig,
    M: MemorySource,
    ND: NonDeterminismCSRSource<M>,
    CSR: DelegationCSRProcessor,
>(world: World<ND::Model, CSR::Model>, funct3: int, rs1: int, rs2: int, offset: int)
    requires
        0 <= funct3 < 8,
        0 <= rs1 < 32,
        0 <= rs2 < 32,
        -0x1000 <= offset < 0x1000,
        offset % 2 == 0,
        ({
            let u = offset % 0x2000;
            is_at(
                world,
                0x63 + 0x80 * ((u / 0x800) % 2) + 0x100 * ((u / 2) % 0x10) + 0x1000 * funct3
                    + 0x8000 * rs1 + 0x10_0000 * rs2 + 0x200_0000 * ((u / 0x20) % 0x40)
                    + 0x8000_0000 * (u / 0x1000),
            )
        }),
    ensures
        ({
            let (a, b) = (world.cpu.regs[rs1], world.cpu.regs[rs2]);
            let pc = world.cpu.pc;
            let target = (pc + offset) % 0x1_0000_0000;
            let taken = {
                ||| funct3 == 0 && a == b
                ||| funct3 == 1 && a != b
                ||| funct3 == 4 && (a as i32) < (b as i32)
                ||| funct3 == 5 && (a as i32) >= (b as i32)
                ||| funct3 == 6 && a < b
                ||| funct3 == 7 && a >= b
            };
            let r = state::step::<C, M, ND, CSR>(world);
            if funct3 == 2 || funct3 == 3 {
                r == Err::<Effect<ND::Model, CSR::Model>, CycleFault>(
                    CycleFault::UnknownOpcode { opcode: world.words[pc as u64] },
                )
            } else if taken && target % 4 != 0 {
                r == Err::<Effect<ND::Model, CSR::Model>, CycleFault>(
                    CycleFault::UnalignedJump { address: target as u32 },
                )
            } else {
                r is Ok && writes_register(
                    world,
                    r->Ok_0,
                    rs1,
                    rs2,
                    0,
                    0,
                    if taken {
                        target
                    } else {
                        (pc + 4) % 0x1_0000_0000
                    },
                )
            }
        }),
{
    let u = offset % 0x2000;
    let w = world.words[world.cpu.pc as u64];
    let pc = world.cpu.pc;
    let (a, b) = (world.cpu.regs[rs1], world.cpu.regs[rs2]);
    bits::lemma_as_i32(a);
    bits::lemma_as_i32(b);
    lemma_branch_offset(u);
    lemma_encoding(
        w,
        0x63,
        ((u / 0x800) % 2 + 2 * ((u / 2) % 0x10)) as u32,
        funct3 as u32,
        rs1 as u32,
        rs2 as u32,
        ((u / 0x20) % 0x40 + 0x40 * (u / 0x1000)) as u32,
    );
    assert(instruction::b_immediate(w) == u);
    lemma_signed_offset(offset, 0x2000, pc);
    let target = ((pc + offset) % 0x1_0000_0000) as u32;
    let action = isa::action_of::<C>(w, pc, a, b);
    assert(action == isa::branch_action(w, pc, a, b));
    reveal(isa::branch_action);
    match action {
        Err(fault) => {
            lemma_step_fails::<C, M, ND, CSR>(world, w, rs1, rs2, fault);
        },
        Ok(a) => {
            lemma_step_writes::<C, M, ND, CSR>(
                world,
                w,
                rs1,
                rs2,
                0,
                0,
                a->Branch_next_pc,
            );
        },
    }
}

/// The cycle of an instruction other than a load that either fails or writes a register.
proof fn lemma_step_of_action<
    C: MachineConfig,
    M: MemorySource,
    ND: NonDeterminismCSRSource<M>,
    CSR: DelegationCSRProcessor,
>(
    world: World<ND::Model, CSR::Model>,
    w: u32,
    rs1: int,
    rs2: int,
    rd: int,
)
    requires
        is_at(world, w as int),
        0 <= rs1 < 32,
        0 <= rs2 < 32,
        0 <= rd < 32,
        instruction::rs1_field(w) == rs1,
        instruction::rs2_field(w) == rs2,
        instruction::rd_field(w) == rd,
        instruction::opcode_field(w) != 3,
    ensures
        ({
            let action = isa::action_of::<C>(
                w,
                world.cpu.pc,
                world.cpu.regs[rs1],
                world.cpu.regs[rs2],
            );
            let r = state::step::<C, M, ND, CSR>(world);
            match action {
                Err(fault) => r == Err::<Effect<ND::Model, CSR::Model>, CycleFault>(fault),
                Ok(Action::WriteRegister { value, next_pc }) => r is Ok && writes_register(
                    world,
                    r->Ok_0,
                    rs1,
                    rs2,
                    rd,
                    value as int,
                    next_pc as int,
                ),
                Ok(_) => true,
            }
        }),
{
    match isa::action_of::<C>(w, world.cpu.pc, world.cpu.regs[rs1], world.cpu.regs[rs2]) {
        Err(fault) => {
            lemma_step_fails::<C, M, ND, CSR>(world, w, rs1, rs2, fault);
        },
        Ok(Action::WriteRegister { value, next_pc }) => {
            lemma_step_writes::<C, M, ND, CSR>(world, w, rs1, rs2, rd, value, next_pc);
        },
        Ok(_) => {},
    }
}

/// The fields of a word with an upper part of 20 bits.
proof fn lemma_upper_encoding(w: u32, op: u32, rd: u32, upper: u32)
    requires
        op < 0x80,
        rd < 0x20,
        upper < 0x10_0000,
        w == op + 0x80 * rd + 0x1000 * upper,
    ensures
        instruction::opcode_field(w) == op,
        instruction::rd_field(w) == rd,
        instruction::rs1_field(w) == (upper / 8) % 0x20,
        instruction::rs2_field(w) == (upper / 0x100) % 0x20,
        bits::bit_field(w, 0x1000, 0x10_0000) == upper,
        bits::bit_field(w, 0x8000_0000, 2) == upper / 0x8_0000,
        bits::bit_field(w, 0x1000, 0x100) == upper % 0x100,
        bits::bit_field(w, 0x10_0000, 2) == (upper / 0x100) % 2,
        bits::bit_field(w, 0x20_0000, 0x400) == (upper / 0x200) % 0x400,
{
    assert(w % 0x80 == op && (w / 0x80) % 0x20 == rd && (w / 0x8000) % 0x20 == (upper / 8) % 0x20
        && (w / 0x10_0000) % 0x20 == (upper / 0x100) % 0x20 && (w / 0x1000) % 0x10_0000 == upper && (
    w / 0x8000_0000) % 2 == upper / 0x8_0000 && (w / 0x1000) % 0x100 == upper % 0x100 && (w
        / 0x10_0000) % 2 == (upper / 0x100) % 2 && (w / 0x20_0000) % 0x400 == (upper / 0x200)
        % 0x400) by (bit_vector)
        requires
            op < 0x80,
            rd < 0x20,
            upper < 0x10_0000,
            w == op + 0x80 * rd + 0x1000 * upper,
    ;
    assert(w as int / 1 == w);
}

/// An upper immediate is the multiple of 4096 that it names, with the program counter added to it in
/// the one of the two instructions.
pub proof fn law_upper_immediates<
    C: MachineConfig,
    M: MemorySource,
    ND: NonDeterminismCSRSource<M>,
    CSR: DelegationCSRProcessor,
>(
    world: World<ND::Model, CSR::Model>,
    relative: bool,
    rd: int,
    upper: int,
)
    requires
        0 <= rd < 32,
        0 <= upper < 0x10_0000,
        is_at(
            world,
            (if relative {
                0x17int
            } else {
                0x37
            }) + 0x80 * rd + 0x1000 * upper,
        ),
    ensures
        ({
            let r = state::step::<C, M, ND, CSR>(world);
            let pc = world.cpu.pc;
            r is Ok && writes_register(
                world,
                r->Ok_0,
                (upper / 8) % 0x20,
                (upper / 0x100) % 0x20,
                rd,
                if relative {
                    (pc + 0x1000 * upper) % 0x1_0000_0000
                } else {
                    0x1000 * upper
                },
                (pc + 4) % 0x1_0000_0000,
            )
        }),
{
    let w = world.words[world.cpu.pc as u64];
    let op: u32 = if relative {
        0x17
    } else {
        0x37
    };
    lemma_upper_encoding(w, op, rd as u32, upper as u32);
    reveal(isa::upper_action);
    let (rs1, rs2) = ((upper / 8) % 0x20, (upper / 0x100) % 0x20);
    lemma_step_of_action::<C, M, ND, CSR>(world, w, rs1, rs2, rd);
}

/// The digits of the offset of a jump.
proof fn lemma_jump_offset(u: int, upper: int)
    requires
        0 <= u < 0x20_0000,
        u % 2 == 0,
        upper == (u / 0x1000) % 0x100 + 0x100 * ((u / 0x800) % 2) + 0x200 * ((u / 2) % 0x400)
            + 0x8_0000 * (u / 0x10_0000),
    ensures
        0 <= upper < 0x10_0000,
        u == 0x10_0000 * (upper / 0x8_0000) + 0x1000 * (upper % 0x100) + 0x800 * ((upper / 0x100)
            % 2) + 2 * ((upper / 0x200) % 0x400),
{
    let x = u as u32;
    let y = ((x / 0x1000) % 0x100 + 0x100 * ((x / 0x800) % 2) + 0x200 * ((x / 2) % 0x400) + 0x8_0000
        * (x / 0x10_0000)) as u32;
    assert(y < 0x10_0000 && y == (x / 0x1000) % 0x100 + 0x100 * ((x / 0x800) % 2) + 0x200 * ((x / 2)
        % 0x400) + 0x8_0000 * (x / 0x10_0000) && x == 0x10_0000 * (y / 0x8_0000) + 0x1000 * (y
        % 0x100) + 0x800 * ((y / 0x100) % 2) + 2 * ((y / 0x200) % 0x400)) by (bit_vector)
        requires
            x < 0x20_0000,
            x % 2 == 0,
            y == ((x / 0x1000) % 0x100 + 0x100 * ((x / 0x800) % 2) + 0x200 * ((x / 2) % 0x400)
                + 0x8_0000 * (x / 0x10_0000)) as u32,
    ;
}

/// A jump goes to the program counter plus its offset, if that is a multiple of four, and links the
/// next instruction.
pub proof fn law_jump<
    C: MachineConfig,
    M: MemorySource,
    ND: NonDeterminismCSRSource<M>,
    CSR: DelegationCSRProcessor,
>(world: World<ND::Model, CSR::Model>, rd: int, offset: int)
    requires
        0 <= rd < 32,
        -0x10_0000 <= offset < 0x10_0000,
        offset % 2 == 0,
        ({
            let u = offset % 0x20_0000;
            is_at(
                world,
                0x6f + 0x80 * rd + 0x1000 * ((u / 0x1000) % 0x100) + 0x10_0000 * ((u / 0x800) % 2)
                    + 0x20_0000 * ((u / 2) % 0x400) + 0x8000_0000 * (u / 0x10_0000),
            )
        }),
    ensures
        ({
            let r = state::step::<C, M, ND, CSR>(world);
            let pc = world.cpu.pc;
            let w = world.words[pc as u64] as int;
            let target = (pc + offset) % 0x1_0000_0000;
            if target % 4 != 0 {
                r == Err::<Effect<ND::Model, CSR::Model>, CycleFault>(
                    CycleFault::UnalignedJump { address: target as u32 },
                )
            } else {
                r is Ok && writes_register(
                    world,
                    r->Ok_0,
                    (w / 0x8000) % 0x20,
                    (w / 0x10_0000) % 0x20,
                    rd,
                    (pc + 4) % 0x1_0000_0000,
                    target,
                )
            }
        }),
{
    let w = world.words[world.cpu.pc as u64];
    let u = offset % 0x20_0000;
    let upper = (u / 0x1000) % 0x100 + 0x100 * ((u / 0x800) % 2) + 0x200 * ((u / 2) % 0x400)
        + 0x8_0000 * (u / 0x10_0000);
    lemma_jump_offset(u, upper);
    lemma_upper_encoding(w, 0x6f, rd as u32, upper as u32);
    assert(instruction::j_immediate(w) == u);
    lemma_signed_offset(offset, 0x20_0000, world.cpu.pc);
    reveal(isa::jump_action);
    let (rs1, rs2) = (instruction::rs1_field(w), instruction::rs2_field(w));
    lemma_step_of_action::<C, M, ND, CSR>(world, w, rs1, rs2, rd);
}

/// An indirect jump goes to its register plus its offset, with the lowest bit cleared, if that is a
/// multiple of four, and links the next instruction.
pub proof fn law_indirect_jump<
    C: MachineConfig,
    M: MemorySource,
    ND: NonDeterminismCSRSource<M>,
    CSR: DelegationCSRProcessor,
>(
    world: World<ND::Model, CSR::Model>,
    funct3: int,
    rd: int,
    rs1: int,
    offset: int,
)
    requires
        0 <= funct3 < 8,
        0 <= rd < 32,
        0 <= rs1 < 32,
        -0x800 <= offset < 0x800,
        is_at(
            world,
            0x67 + 0x80 * rd + 0x1000 * funct3 + 0x8000 * rs1 + 0x10_0000 * (offset % 0x1000),
        ),
    ensures
        ({
            let r = state::step::<C, M, ND, CSR>(world);
            let pc = world.cpu.pc;
            let sum = (world.cpu.regs[rs1] + offset) % 0x1_0000_0000;
            let target = sum - sum % 2;
            if target % 4 != 0 {
                r == Err::<Effect<ND::Model, CSR::Model>, CycleFault>(
                    CycleFault::UnalignedJump { address: target as u32 },
                )
            } else {
                r is Ok && writes_register(
                    world,
                    r->Ok_0,
                    rs1,
                    (offset % 0x1000) % 0x20,
                    rd,
                    (pc + 4) % 0x1_0000_0000,
                    target,
                )
            }
        }),
{
    let w = world.words[world.cpu.pc as u64];
    let u = offset % 0x1000;
    lemma_encoding(w, 0x67, rd as u32, funct3 as u32, rs1 as u32, (u % 0x20) as u32, (u / 0x20) as u32);
    assert(instruction::i_immediate(w) == u);
    lemma_signed_offset(offset, 0x1000, world.cpu.regs[rs1]);
    reveal(isa::jump_action);
    lemma_step_of_action::<C, M, ND, CSR>(world, w, rs1, u % 0x20, rd);
}

/// Operations on a register and an immediate: the sum (0), whether the register is less, as signed
/// numbers (2) or unsigned ones (3), and the exclusive (4) or inclusive disjunction (6) or the
/// conjunction (7) bit by bit.
pub proof fn law_immediate_operations<
    C: MachineConfig,
    M: MemorySource,
    ND: NonDeterminismCSRSource<M>,
    CSR: DelegationCSRProcessor,
>(
    world: World<ND::Model, CSR::Model>,
    funct3: int,
    rd: int,
    rs1: int,
    immediate: int,
)
    requires
        0 <= funct3 < 8,
        funct3 != 1,
        funct3 != 5,
        0 <= rd < 32,
        0 <= rs1 < 32,
        -0x800 <= immediate < 0x800,
        is_at(
            world,
            0x13 + 0x80 * rd + 0x1000 * funct3 + 0x8000 * rs1 + 0x10_0000 * (immediate % 0x1000),
        ),
    ensures
        ({
            let r = state::step::<C, M, ND, CSR>(world);
            let a = world.cpu.regs[rs1];
            let b = (immediate % 0x1_0000_0000) as u32;
            let value: int = if funct3 == 0 {
                (a + immediate) % 0x1_0000_0000
            } else if funct3 == 2 {
                if (a as i32) < immediate {
                    1
                } else {
                    0
                }
            } else if funct3 == 3 {
                if a < b {
                    1
                } else {
                    0
                }
            } else if funct3 == 4 {
                (a ^ b) as int
            } else if funct3 == 6 {
                (a | b) as int
            } else {
                (a & b) as int
            };
            r is Ok && writes_register(
                world,
                r->Ok_0,
                rs1,
                (immediate % 0x1000) % 0x20,
                rd,
                value,
                (world.cpu.pc + 4) % 0x1_0000_0000,
            )
        }),
{
    let w = world.words[world.cpu.pc as u64];
    let u = immediate % 0x1000;
    let a = world.cpu.regs[rs1];
    lemma_encoding(w, 0x13, rd as u32, funct3 as u32, rs1 as u32, (u % 0x20) as u32, (u / 0x20) as u32);
    assert(instruction::i_immediate(w) == u);
    lemma_signed_offset(immediate, 0x1000, a);
    bits::lemma_as_i32(a);
    bits::lemma_as_i32(isa::i_operand(w));
    reveal(isa::arithmetic_action);
    lemma_step_of_action::<C, M, ND, CSR>(world, w, rs1, u % 0x20, rd);
}

/// Shifts by a constant: to the left, to the right, to the right with the sign, and the rotation to
/// the right, by the uppermost bits of the instruction; others are no instructions.
pub proof fn law_constant_shifts<
    C: MachineConfig,
    M: MemorySource,
    ND: NonDeterminismCSRSource<M>,
    CSR: DelegationCSRProcessor,
>(
    world: World<ND::Model, CSR::Model>,
    left: bool,
    funct7: int,
    rd: int,
    rs1: int,
    by: int,
)
    requires
        0 <= funct7 < 0x80,
        0 <= rd < 32,
        0 <= rs1 < 32,
        0 <= by < 32,
        is_at(
            world,
            0x13 + 0x80 * rd + 0x1000 * (if left {
                1int
            } else {
                5
            }) + 0x8000 * rs1 + 0x10_0000 * by + 0x200_0000 * funct7,
        ),
    ensures
        ({
            let r = state::step::<C, M, ND, CSR>(world);
            let pc = world.cpu.pc;
            let a = world.cpu.regs[rs1];
            let by = by as u32;
            let value: Option<u32> = if funct7 == 0 && left {
                Some(a << by)
            } else if funct7 == 0 {
                Some(a >> by)
            } else if funct7 == 0x20 && !left && C::SUPPORT_SRA {
                Some(((a as i32) >> by) as u32)
            } else if funct7 == 0x30 && !left && C::SUPPORT_ROT {
                if by == 0 {
                    Some(a)
                } else {
                    Some((a >> by) | (a << ((32 - by) as u32)))
                }
            } else {
                None
            };
            match value {
                None => r == Err::<Effect<ND::Model, CSR::Model>, CycleFault>(
                    CycleFault::UnknownOpcode { opcode: world.words[pc as u64] },
                ),
                Some(v) => r is Ok && writes_register(
                    world,
                    r->Ok_0,
                    rs1,
                    by as int,
                    rd,
                    v as int,
                    (pc + 4) % 0x1_0000_0000,
                ),
            }
        }),
{
    let w = world.words[world.cpu.pc as u64];
    let f3: u32 = if left {
        1
    } else {
        5
    };
    lemma_encoding(w, 0x13, rd as u32, f3, rs1 as u32, by as u32, funct7 as u32);
    let u = instruction::i_immediate(w);
    assert(u == by + 0x20 * funct7);
    assert(isa::i_operand(w) % 32 == by);
    reveal(isa::arithmetic_action);
    lemma_step_of_action::<C, M, ND, CSR>(world, w, rs1, by, rd);
}

/// Operations on two registers: sum and difference, shifts by the lowest five bits of the second
/// one, comparisons, and operations bit by bit; what else the fields name is no instruction.
pub proof fn law_register_operations<
    C: MachineConfig,
    M: MemorySource,
    ND: NonDeterminismCSRSource<M>,
    CSR: DelegationCSRProcessor,
>(
    world: World<ND::Model, CSR::Model>,
    funct3: int,
    funct7: int,
    rd: int,
    rs1: int,
    rs2: int,
)
    requires
        0 <= funct3 < 8,
        0 <= funct7 < 0x80,
        funct7 != 1,
        0 <= rd < 32,
        0 <= rs1 < 32,
        0 <= rs2 < 32,
        is_at(
            world,
            0x33 + 0x80 * rd + 0x1000 * funct3 + 0x8000 * rs1 + 0x10_0000 * rs2 + 0x200_0000
                * funct7,
        ),
    ensures
        ({
            let r = state::step::<C, M, ND, CSR>(world);
            let pc = world.cpu.pc;
            let (a, b) = (world.cpu.regs[rs1], world.cpu.regs[rs2]);
            let by = b % 32;
            let value: Option<int> = if funct3 == 0 && funct7 == 0 {
                Some((a + b) % 0x1_0000_0000)
            } else if funct3 == 0 && funct7 == 0x20 {
                Some((a - b) % 0x1_0000_0000)
            } else if funct3 == 1 && funct7 == 0 {
                Some((a << by) as int)
            } else if funct3 == 1 && funct7 == 0x30 && C::SUPPORT_ROT {
                if by == 0 {
                    Some(a as int)
                } else {
                    Some(((a << by) | (a >> ((32 - by) as u32))) as int)
                }
            } else if funct3 == 2 {
                if (a as i32) < (b as i32) {
                    Some(1)
                } else {
                    Some(0)
                }
            } else if funct3 == 3 {
                if a < b {
                    Some(1)
                } else {
                    Some(0)
                }
            } else if funct3 == 4 {
                Some((a ^ b) as int)
            } else if funct3 == 5 && funct7 == 0 {
                Some((a >> by) as int)
            } else if funct3 == 5 && funct7 == 0x20 && C::SUPPORT_SRA {
                Some((((a as i32) >> by) as u32) as int)
            } else if funct3 == 5 && funct7 == 0x30 && C::SUPPORT_ROT {
                if by == 0 {
                    Some(a as int)
                } else {
                    Some(((a >> by) | (a << ((32 - by) as u32))) as int)
                }
            } else if funct3 == 6 {
                Some((a | b) as int)
            } else if funct3 == 7 {
                Some((a & b) as int)
            } else {
                None
            };
            match value {
                None => r == Err::<Effect<ND::Model, CSR::Model>, CycleFault>(
                    CycleFault::UnknownOpcode { opcode: world.words[pc as u64] },
                ),
                Some(v) => r is Ok && writes_register(
                    world,
                    r->Ok_0,
                    rs1,
                    rs2,
                    rd,
                    v,
                    (pc + 4) % 0x1_0000_0000,
                ),
            }
        }),
{
    let w = world.words[world.cpu.pc as u64];
    let (a, b) = (world.cpu.regs[rs1], world.cpu.regs[rs2]);
    lemma_encoding(w, 0x33, rd as u32, funct3 as u32, rs1 as u32, rs2 as u32, funct7 as u32);
    bits::lemma_as_i32(a);
    bits::lemma_as_i32(b);
    reveal(isa::arithmetic_action);
    lemma_step_of_action::<C, M, ND, CSR>(world, w, rs1, rs2, rd);
}

/// Products and quotients. Of a product: the lower word (0), and the upper word with both factors
/// signed (1), the first one signed (2), or none (3). Of a division, with signs (4, 6) or without
/// (5, 7): the quotient rounded towards zero, and the remainder with the sign of the dividend. By
/// zero the quotient has all bits set and the remainder is the dividend. A machine without an
/// operation does not know its instruction.
#[verifier::rlimit(20)]
#[verifier::spinoff_prover]
pub proof fn law_products_and_quotients<
    C: MachineConfig,
    M: MemorySource,
    ND: NonDeterminismCSRSource<M>,
    CSR: DelegationCSRProcessor,
>(
    world: World<ND::Model, CSR::Model>,
    funct3: int,
    rd: int,
    rs1: int,
    rs2: int,
)
    requires
        0 <= funct3 < 8,
        0 <= rd < 32,
        0 <= rs1 < 32,
        0 <= rs2 < 32,
        is_at(
            world,
            0x33 + 0x80 * rd + 0x1000 * funct3 + 0x8000 * rs1 + 0x10_0000 * rs2 + 0x200_0000,
        ),
    ensures
        ({
            let r = state::step::<C, M, ND, CSR>(world);
            let pc = world.cpu.pc;
            let (a, b) = (world.cpu.regs[rs1], world.cpu.regs[rs2]);
            let (x, y) = ((a as i32) as int, (b as i32) as int);
            let (m, n) = (
                if x < 0 {
                    -x
                } else {
                    x
                },
                if y < 0 {
                    -y
                } else {
                    y
                },
            );
            let supported = {
                ||| funct3 == 0 && C::SUPPORT_MUL
                ||| funct3 == 1 && C::SUPPORT_MUL && C::SUPPORT_SIGNED_MUL
                ||| funct3 == 2 && C::SUPPORT_MUL && C::SUPPORT_SIGNED_MUL
                ||| funct3 == 3 && C::SUPPORT_MUL
                ||| funct3 == 4 && C::SUPPORT_DIV && C::SUPPORT_SIGNED_DIV
                ||| funct3 == 5 && C::SUPPORT_DIV
                ||| funct3 == 6 && C::SUPPORT_DIV && C::SUPPORT_SIGNED_DIV
                ||| funct3 == 7 && C::SUPPORT_DIV
            };
            let value: int = if funct3 == 0 {
                (a * b) % 0x1_0000_0000
            } else if funct3 == 1 {
                ((x * y) / 0x1_0000_0000) % 0x1_0000_0000
            } else if funct3 == 2 {
                ((x * b) / 0x1_0000_0000) % 0x1_0000_0000
            } else if funct3 == 3 {
                (a * b) / 0x1_0000_0000
            } else if b == 0 && (funct3 == 4 || funct3 == 5) {
                0xffff_ffff
            } else if b == 0 {
                a as int
            } else if funct3 == 4 {
                (if (x < 0) == (y < 0) {
                    m / n
                } else {
                    -(m / n)
                }) % 0x1_0000_0000
            } else if funct3 == 5 {
                a as int / b as int
            } else if funct3 == 6 {
                (if x < 0 {
                    -(m % n)
                } else {
                    m % n
                }) % 0x1_0000_0000
            } else {
                a as int % b as int
            };
            if supported {
                r is Ok && writes_register(
                    world,
                    r->Ok_0,
                    rs1,
                    rs2,
                    rd,
                    value,
                    (pc + 4) % 0x1_0000_0000,
                )
            } else {
                r == Err::<Effect<ND::Model, CSR::Model>, CycleFault>(
                    CycleFault::UnknownOpcode { opcode: world.words[pc as u64] },
                )
            }
        }),
{
    let w = world.words[world.cpu.pc as u64];
    let (a, b) = (world.cpu.regs[rs1], world.cpu.regs[rs2]);
    lemma_encoding(w, 0x33, rd as u32, funct3 as u32, rs1 as u32, rs2 as u32, 1);
    bits::lemma_as_i32(a);
    bits::lemma_as_i32(b);
    assert(0 <= a * b <= 0xffff_ffff * 0xffff_ffff) by (nonlinear_arith)
        requires
            0 <= a <= 0xffff_ffff,
            0 <= b <= 0xffff_ffff,
    ;
    assert(0 <= (a * b) / 0x1_0000_0000 < 0x1_0000_0000);
    reveal(isa::arithmetic_action);
    lemma_step_of_action::<C, M, ND, CSR>(world, w, rs1, rs2, rd);
}

/// The quotient and the remainder of a division make up the dividend: where the one cycle divides
/// and the other takes the remainder of the same two registers, the divisor times the quotient plus
/// the remainder is the dividend modulo `2^32`, by zero too if zero times anything is zero.
pub proof fn law_quotient_and_remainder<
    C: MachineConfig,
    M: MemorySource,
    ND: NonDeterminismCSRSource<M>,
    CSR: DelegationCSRProcessor,
>(
    world: World<ND::Model, CSR::Model>,
    other: World<ND::Model, CSR::Model>,
    rd: int,
    rs1: int,
    rs2: int,
)
    requires
        0 < rd < 32,
        0 <= rs1 < 32,
        0 <= rs2 < 32,
        C::SUPPORT_DIV,
        is_at(world, 0x33 + 0x80 * rd + 0x5000 + 0x8000 * rs1 + 0x10_0000 * rs2 + 0x200_0000),
        is_at(other, 0x33 + 0x80 * rd + 0x7000 + 0x8000 * rs1 + 0x10_0000 * rs2 + 0x200_0000),
        other.cpu.regs == world.cpu.regs,
    ensures
        ({
            let (a, b) = (world.cpu.regs[rs1], world.cpu.regs[rs2]);
            let q = state::step::<C, M, ND, CSR>(world)->Ok_0.world.cpu.regs[rd];
            let r = state::step::<C, M, ND, CSR>(other)->Ok_0.world.cpu.regs[rd];
            &&& b * q + r == a
            &&& b != 0 ==> r < b
        }),
{
    let (a, b) = (world.cpu.regs[rs1], world.cpu.regs[rs2]);
    law_products_and_quotients::<C, M, ND, CSR>(world, 5, rd, rs1, rs2);
    law_products_and_quotients::<C, M, ND, CSR>(other, 7, rd, rs1, rs2);
    let q = state::step::<C, M, ND, CSR>(world)->Ok_0.world.cpu.regs[rd];
    if b == 0 {
        assert(b * q == 0) by (nonlinear_arith)
            requires
                b == 0,
        ;
    } else {
        vstd::arithmetic::div_mod::lemma_fundamental_div_mod(a as int, b as int);
    }
}

/// A load reads the bytes at its register plus its offset, in little-endian order: one, two or four,
/// from a multiple of their number. Of fewer than four, the two that keep the sign extend it and
/// the others extend by zeros; a machine without the former refuses them. The word that holds the
/// bytes is traced as read.
#[verifier::rlimit(30)]
#[verifier::spinoff_prover]
pub proof fn law_loads<
    C: MachineConfig,
    M: MemorySource,
    ND: NonDeterminismCSRSource<M>,
    CSR: DelegationCSRProcessor,
>(
    world: World<ND::Model, CSR::Model>,
    funct3: int,
    rd: int,
    rs1: int,
    offset: int,
)
    requires
        0 <= funct3 < 8,
        0 <= rd < 32,
        0 <= rs1 < 32,
        -0x800 <= offset < 0x800,
        is_at(
            world,
            0x03 + 0x80 * rd + 0x1000 * funct3 + 0x8000 * rs1 + 0x10_0000 * (offset % 0x1000),
        ),
    ensures
        ({
            let r = state::step::<C, M, ND, CSR>(world);
            let pc = world.cpu.pc;
            let address = (world.cpu.regs[rs1] + offset) % 0x1_0000_0000;
            let at = (address - address % 4) as u64;
            let word = world.words[at];
            let size: int = if funct3 == 2 {
                4
            } else if funct3 == 1 || funct3 == 5 {
                2
            } else {
                1
            };
            let value: int = if funct3 == 2 {
                word as int
            } else {
                let bytes = (word as int / vstd::arithmetic::power2::pow2(
                    (8 * (address % 4)) as nat,
                ) as int) % vstd::arithmetic::power2::pow2((8 * size) as nat) as int;
                if funct3 == 0 && bytes >= 0x80 {
                    bytes + 0x1_0000_0000 - 0x100
                } else if funct3 == 1 && bytes >= 0x8000 {
                    bytes + 0x1_0000_0000 - 0x1_0000
                } else {
                    bytes
                }
            };
            if funct3 == 3 || funct3 == 6 || funct3 == 7 {
                r == Err::<Effect<ND::Model, CSR::Model>, CycleFault>(
                    CycleFault::UnknownOpcode { opcode: world.words[pc as u64] },
                )
            } else if (funct3 == 0 || funct3 == 1) && !C::SUPPORT_SIGNED_LOAD {
                r == Err::<Effect<ND::Model, CSR::Model>, CycleFault>(
                    CycleFault::SignedLoad { opcode: world.words[pc as u64] },
                )
            } else if address % size != 0 || !world.words.contains_key(at) {
                r == Err::<Effect<ND::Model, CSR::Model>, CycleFault>(
                    CycleFault::MemoryAccess { address: address as u32 },
                )
            } else {
                &&& r is Ok
                &&& writes_only(world, r->Ok_0.world, rd, value)
                &&& r->Ok_0.world.cpu.pc == (pc + 4) % 0x1_0000_0000
                &&& keeps_surroundings(world, r->Ok_0.world)
                &&& r->Ok_0.events == seq![
                    TraceEvent::CycleStart { cpu: world.cpu },
                    TraceEvent::Rs1Read { index: rs1 as u32, value: world.cpu.regs[rs1] },
                    TraceEvent::RamRead { address: at, value: word },
                    TraceEvent::RdWrite {
                        index: rd as u32,
                        old_value: world.cpu.regs[rd],
                        value: value as u32,
                    },
                    TraceEvent::CycleEnd { cpu: r->Ok_0.world.cpu },
                ]
            }
        }),
{
    let w = world.words[world.cpu.pc as u64];
    let u = offset % 0x1000;
    lemma_encoding(w, 0x03, rd as u32, funct3 as u32, rs1 as u32, (u % 0x20) as u32, (u / 0x20) as u32);
    assert(instruction::i_immediate(w) == u);
    lemma_signed_offset(offset, 0x1000, world.cpu.regs[rs1]);
    reveal(isa::load_action);
    let address = ((world.cpu.regs[rs1] + offset) % 0x1_0000_0000) as u32;
    let at = memory::word_address(address as u64);
    lemma_low_bytes(world.words[at], address as int % 4);
    match isa::action_of::<C>(w, world.cpu.pc, world.cpu.regs[rs1], 0) {
        Err(fault) => {
            lemma_step_fails::<C, M, ND, CSR>(world, w, rs1, u % 0x20, fault);
        },
        Ok(action) => {
            lemma_step_loads::<C, M, ND, CSR>(
                world,
                w,
                rs1,
                rd,
                address,
                action->Load_kind,
            );
        },
    }
}

/// The weight of a byte.
proof fn lemma_byte_weight(i: int)
    requires
        0 <= i <= 4,
    ensures
        vstd::arithmetic::power2::pow2((8 * i) as nat) == if i == 0 {
            1int
        } else if i == 1 {
            0x100
        } else if i == 2 {
            0x1_0000
        } else if i == 3 {
            0x100_0000
        } else {
            0x1_0000_0000
        },
{
    vstd::arithmetic::power2::lemma2_to64();
    if i == 0 {
        assert((8 * i) as nat == 0);
    } else if i == 1 {
        assert((8 * i) as nat == 8);
    } else if i == 2 {
        assert((8 * i) as nat == 16);
    } else if i == 3 {
        assert((8 * i) as nat == 24);
    } else {
        assert((8 * i) as nat == 32);
    }
}

/// The bytes of a word from an offset on.
proof fn lemma_low_bytes(word: u32, offset: int)
    requires
        0 <= offset < 4,
    ensures
        ({
            let shifted = word as int / vstd::arithmetic::power2::pow2((8 * offset) as nat) as int;
            &&& memory::sub_word(word, offset, 1) == shifted % 0x100
            &&& offset % 2 == 0 ==> memory::sub_word(word, offset, 2) == shifted % 0x1_0000
            &&& memory::sub_word(word, 0, 4) == word
        }),
        vstd::arithmetic::power2::pow2(8) == 0x100,
        vstd::arithmetic::power2::pow2(16) == 0x1_0000,
{
    reveal(memory::sub_word);
    vstd::arithmetic::power2::lemma2_to64();
    lemma_byte_weight(offset);
    memory::lemma_word_of_bytes(word, 0, 0, 0, 0);
    lemma_bytes_by_division(word);
}

/// The bytes and halves of a word as quotients and remainders.
proof fn lemma_bytes_by_division(word: u32)
    ensures
        ({
            let w = word as int;
            &&& w % 0x1_0000 == memory::byte_of(word, 0) + 0x100 * memory::byte_of(word, 1)
            &&& w / 0x1_0000 == memory::byte_of(word, 2) + 0x100 * memory::byte_of(word, 3)
            &&& w % 0x100 == memory::byte_of(word, 0)
            &&& (w / 0x100) % 0x100 == memory::byte_of(word, 1)
            &&& (w / 0x1_0000) % 0x100 == memory::byte_of(word, 2)
            &&& w / 0x100_0000 == memory::byte_of(word, 3)
            &&& 0 <= w / 0x1_0000 < 0x1_0000
            &&& 0 <= w / 0x100_0000 < 0x100
        }),
        word == memory::byte_of(word, 0) + 0x100 * memory::byte_of(word, 1) + 0x1_0000
            * memory::byte_of(word, 2) + 0x100_0000 * memory::byte_of(word, 3),
{
    memory::lemma_word_of_bytes(word, 0, 0, 0, 0);
}

/// The cycle of a load that is carried out, or that its address forbids.
proof fn lemma_step_loads<
    C: MachineConfig,
    M: MemorySource,
    ND: NonDeterminismCSRSource<M>,
    CSR: DelegationCSRProcessor,
>(
    world: World<ND::Model, CSR::Model>,
    w: u32,
    rs1: int,
    rd: int,
    address: u32,
    kind: LoadKind,
)
    requires
        is_at(world, w as int),
        0 <= rs1 < 32,
        0 <= rd < 32,
        instruction::rs1_field(w) == rs1,
        instruction::rd_field(w) == rd,
        instruction::opcode_field(w) == 3,
        isa::action_of::<C>(w, world.cpu.pc, world.cpu.regs[rs1], 0) == Ok::<Action, CycleFault>(
            Action::Load { address, kind },
        ),
    ensures
        ({
            let r = state::step::<C, M, ND, CSR>(world);
            let pc = world.cpu.pc;
            let at = memory::word_address(address as u64);
            let word = world.words[at];
            let value = kind.extended(
                memory::sub_word(word, (address % 4) as int, kind.length() as int),
            );
            if !memory::is_aligned_access(address as u64, kind.length())
                || !world.words.contains_key(at) {
                r == Err::<Effect<ND::Model, CSR::Model>, CycleFault>(
                    CycleFault::MemoryAccess { address },
                )
            } else {
                &&& r is Ok
                &&& writes_only(world, r->Ok_0.world, rd, value as int)
                &&& r->Ok_0.world.cpu.pc == (pc + 4) % 0x1_0000_0000
                &&& keeps_surroundings(world, r->Ok_0.world)
                &&& r->Ok_0.events == seq![
                    TraceEvent::CycleStart { cpu: world.cpu },
                    TraceEvent::Rs1Read { index: rs1 as u32, value: world.cpu.regs[rs1] },
                    TraceEvent::RamRead { address: at, value: word },
                    TraceEvent::RdWrite {
                        index: rd as u32,
                        old_value: world.cpu.regs[rd],
                        value,
                    },
                    TraceEvent::CycleEnd { cpu: r->Ok_0.world.cpu },
                ]
            }
        }),
{
    let at = memory::word_address(address as u64);
    if memory::is_aligned_access(address as u64, kind.length()) && world.words.contains_key(at) {
        let e = state::step::<C, M, ND, CSR>(world)->Ok_0;
        let word = world.words[at];
        let value = kind.extended(
            memory::sub_word(word, (address % 4) as int, kind.length() as int),
        );
        assert(e.events =~= seq![
            TraceEvent::CycleStart { cpu: world.cpu },
            TraceEvent::Rs1Read { index: rs1 as u32, value: world.cpu.regs[rs1] },
            TraceEvent::RamRead { address: at, value: word },
            TraceEvent::RdWrite { index: rd as u32, old_value: world.cpu.regs[rd], value },
            TraceEvent::CycleEnd { cpu: e.world.cpu },
        ]);
    }
}

/// A store writes the lowest one, two or four bytes of its second register to the address of its
/// first one plus its offset, in little-endian order, if that is a multiple of their number and
/// may be written. It changes those bytes of memory and no others, and no register; the word that
/// holds the bytes is traced with what it held before and holds after.
#[verifier::rlimit(30)]
#[verifier::spinoff_prover]
pub proof fn law_stores<
    C: MachineConfig,
    M: MemorySource,
    ND: NonDeterminismCSRSource<M>,
    CSR: DelegationCSRProcessor,
>(
    world: World<ND::Model, CSR::Model>,
    funct3: int,
    rs1: int,
    rs2: int,
    offset: int,
)
    requires
        0 <= funct3 < 8,
        0 <= rs1 < 32,
        0 <= rs2 < 32,
        -0x800 <= offset < 0x800,
        ({
            let u = offset % 0x1000;
            is_at(
                world,
                0x23 + 0x80 * (u % 0x20) + 0x1000 * funct3 + 0x8000 * rs1 + 0x10_0000 * rs2
                    + 0x200_0000 * (u / 0x20),
            )
        }),
    ensures
        ({
            let r = state::step::<C, M, ND, CSR>(world);
            let pc = world.cpu.pc;
            let address = (world.cpu.regs[rs1] + offset) % 0x1_0000_0000;
            let at = (address - address % 4) as u64;
            let word = world.words[at];
            let size: int = if funct3 == 2 {
                4
            } else if funct3 == 1 {
                2
            } else {
                1
            };
            let weight = vstd::arithmetic::power2::pow2((8 * (address % 4)) as nat) as int;
            let span = vstd::arithmetic::power2::pow2((8 * size) as nat) as int;
            let before = (word as int / weight) % span;
            let after = world.cpu.regs[rs2] as int % span;
            let stored = word - weight * before + weight * after;
            if funct3 > 2 {
                r == Err::<Effect<ND::Model, CSR::Model>, CycleFault>(
                    CycleFault::UnknownOpcode { opcode: world.words[pc as u64] },
                )
            } else if address % size != 0 || !world.words.contains_key(at)
                || !world.writable.contains(at) {
                r == Err::<Effect<ND::Model, CSR::Model>, CycleFault>(
                    CycleFault::MemoryAccess { address: address as u32 },
                )
            } else {
                &&& r is Ok
                &&& r->Ok_0.world.cpu.regs == world.cpu.regs
                &&& r->Ok_0.world.cpu.pc == (pc + 4) % 0x1_0000_0000
                &&& r->Ok_0.world.words == world.words.insert(at, stored as u32)
                &&& 0 <= stored <= u32::MAX
                &&& r->Ok_0.world.writable == world.writable
                &&& r->Ok_0.world.oracle == world.oracle
                &&& r->Ok_0.world.processor == world.processor
                &&& r->Ok_0.events == seq![
                    TraceEvent::CycleStart { cpu: world.cpu },
                    TraceEvent::Rs1Read { index: rs1 as u32, value: world.cpu.regs[rs1] },
                    TraceEvent::Rs2Read { index: rs2 as u32, value: world.cpu.regs[rs2] },
                    TraceEvent::RamReadWrite {
                        address: at,
                        old_value: word,
                        value: stored as u32,
                    },
                    TraceEvent::CycleEnd { cpu: r->Ok_0.world.cpu },
                ]
            }
        }),
{
    let w = world.words[world.cpu.pc as u64];
    let u = offset % 0x1000;
    lemma_encoding(
        w,
        0x23,
        (u % 0x20) as u32,
        funct3 as u32,
        rs1 as u32,
        rs2 as u32,
        (u / 0x20) as u32,
    );
    assert(instruction::s_immediate(w) == u);
    lemma_signed_offset(offset, 0x1000, world.cpu.regs[rs1]);
    let address = ((world.cpu.regs[rs1] + offset) % 0x1_0000_0000) as u32;
    let at = memory::word_address(address as u64);
    let value = world.cpu.regs[rs2];
    if funct3 <= 2 {
        let size: int = if funct3 == 2 {
            4
        } else if funct3 == 1 {
            2
        } else {
            1
        };
        if address as int % size == 0 {
            lemma_replaced_bytes(world.words[at], address as int % 4, size, value);
        }
    }
    reveal(isa::store_action);
    match isa::action_of::<C>(w, world.cpu.pc, world.cpu.regs[rs1], value) {
        Err(fault) => {
            lemma_step_fails::<C, M, ND, CSR>(world, w, rs1, rs2, fault);
        },
        Ok(action) => {
            lemma_step_stores::<C, M, ND, CSR>(
                world,
                w,
                rs1,
                rs2,
                address,
                action->Store_length,
            );
        },
    }
}

/// A word some of whose bytes are replaced.
proof fn lemma_replaced_bytes(word: u32, offset: int, size: int, value: u32)
    requires
        0 <= offset < 4,
        size == 1 || size == 2 || size == 4,
        offset % size == 0,
    ensures
        ({
            let weight = vstd::arithmetic::power2::pow2((8 * offset) as nat) as int;
            let span = vstd::arithmetic::power2::pow2((8 * size) as nat) as int;
            memory::replace_sub_word(word, offset, size, value) == word - weight * ((word as int
                / weight) % span) + weight * (value as int % span)
        }),
{
    reveal(memory::replace_sub_word);
    lemma_byte_weight(offset);
    lemma_byte_weight(size);
    lemma_bytes_by_division(word);
    lemma_bytes_by_division(value);
    let weight = vstd::arithmetic::power2::pow2((8 * offset) as nat) as int;
    let span = vstd::arithmetic::power2::pow2((8 * size) as nat) as int;
    let before = (word as int / weight) % span;
    let after = value as int % span;
    assert(weight == 1 ==> weight * before == before && weight * after == after)
        by (nonlinear_arith);
    assert(weight == 0x100 ==> weight * before == 0x100 * before && weight * after == 0x100 * after)
        by (nonlinear_arith);
    assert(weight == 0x1_0000 ==> weight * before == 0x1_0000 * before && weight * after == 0x1_0000
        * after) by (nonlinear_arith);
    assert(weight == 0x100_0000 ==> weight * before == 0x100_0000 * before && weight * after
        == 0x100_0000 * after) by (nonlinear_arith);
    if size == 4 {
        assert(before == word && after == value);
    }
}

/// The cycle of a store that is carried out, or that its address forbids.
proof fn lemma_step_stores<
    C: MachineConfig,
    M: MemorySource,
    ND: NonDeterminismCSRSource<M>,
    CSR: DelegationCSRProcessor,
>(
    world: World<ND::Model, CSR::Model>,
    w: u32,
    rs1: int,
    rs2: int,
    address: u32,
    length: u32,
)
    requires
        is_at(world, w as int),
        0 <= rs1 < 32,
        0 <= rs2 < 32,
        instruction::rs1_field(w) == rs1,
        instruction::rs2_field(w) == rs2,
        instruction::opcode_field(w) != 3,
        isa::action_of::<C>(w, world.cpu.pc, world.cpu.regs[rs1], world.cpu.regs[rs2]) == Ok::<
            Action,
            CycleFault,
        >(Action::Store { address, length }),
    ensures
        ({
            let r = state::step::<C, M, ND, CSR>(world);
            let pc = world.cpu.pc;
            let at = memory::word_address(address as u64);
            let word = world.words[at];
            let stored = memory::replace_sub_word(
                word,
                (address % 4) as int,
                length as int,
                world.cpu.regs[rs2],
            );
            if !memory::is_aligned_access(address as u64, length) || !world.words.contains_key(at)
                || !world.writable.contains(at) {
                r == Err::<Effect<ND::Model, CSR::Model>, CycleFault>(
                    CycleFault::MemoryAccess { address },
                )
            } else {
                &&& r is Ok
                &&& r->Ok_0.world.cpu.regs == world.cpu.regs
                &&& r->Ok_0.world.cpu.pc == (pc + 4) % 0x1_0000_0000
                &&& r->Ok_0.world.words == world.words.insert(at, stored)
                &&& r->Ok_0.world.writable == world.writable
                &&& r->Ok_0.world.oracle == world.oracle
                &&& r->Ok_0.world.processor == world.processor
                &&& r->Ok_0.events == seq![
                    TraceEvent::CycleStart { cpu: world.cpu },
                    TraceEvent::Rs1Read { index: rs1 as u32, value: world.cpu.regs[rs1] },
                    TraceEvent::Rs2Read { index: rs2 as u32, value: world.cpu.regs[rs2] },
                    TraceEvent::RamReadWrite { address: at, old_value: word, value: stored },
                    TraceEvent::CycleEnd { cpu: r->Ok_0.world.cpu },
                ]
            }
        }),
{
    let at = memory::word_address(address as u64);
    if memory::is_aligned_access(address as u64, length) && world.words.contains_key(at)
        && world.writable.contains(at) {
        let e = state::step::<C, M, ND, CSR>(world)->Ok_0;
        let word = world.words[at];
        let stored = memory::replace_sub_word(
            word,
            (address % 4) as int,
            length as int,
            world.cpu.regs[rs2],
        );
        assert(e.events =~= seq![
            TraceEvent::CycleStart { cpu: world.cpu },
            TraceEvent::Rs1Read { index: rs1 as u32, value: world.cpu.regs[rs1] },
            TraceEvent::Rs2Read { index: rs2 as u32, value: world.cpu.regs[rs2] },
            TraceEvent::RamReadWrite { address: at, old_value: word, value: stored },
            TraceEvent::CycleEnd { cpu: e.world.cpu },
        ]);
    }
}

/// Modular operations give the sum, the difference or the product in the field of order `2^31 - 1`,
/// whatever representatives their registers hold; the result is the least representative. The bits
/// 26, 27 and 30 of the instruction tell which. Other instructions of this kind, and all of them on
/// a machine without modular operations, do nothing.
#[verifier::rlimit(20)]
#[verifier::spinoff_prover]
pub proof fn law_modular_operations<
    C: MachineConfig,
    M: MemorySource,
    ND: NonDeterminismCSRSource<M>,
    CSR: DelegationCSRProcessor,
>(
    world: World<ND::Model, CSR::Model>,
    funct7: int,
    rd: int,
    rs1: int,
    rs2: int,
)
    requires
        0 <= funct7 < 0x80,
        0 <= rd < 32,
        0 <= rs1 < 32,
        0 <= rs2 < 32,
        is_at(
            world,
            0x73 + 0x80 * rd + 0x4000 + 0x8000 * rs1 + 0x10_0000 * rs2 + 0x200_0000 * funct7,
        ),
    ensures
        ({
            let r = state::step::<C, M, ND, CSR>(world);
            let pc = world.cpu.pc;
            let (a, b) = (world.cpu.regs[rs1] as int, world.cpu.regs[rs2] as int);
            let middle = (funct7 / 2) % 4;
            let odd = middle % 2 == 1 || (funct7 / 0x20) % 2 == 1;
            let value: int = if middle < 2 && !odd {
                (a + b) % 0x7fff_ffff
            } else if middle < 2 {
                (a - b) % 0x7fff_ffff
            } else {
                (a * b) % 0x7fff_ffff
            };
            if !C::SUPPORT_MOPS || funct7 < 0x40 || funct7 % 2 == 0 {
                &&& r is Ok
                &&& r->Ok_0.world.cpu.regs == world.cpu.regs
                &&& r->Ok_0.world.cpu.pc == (pc + 4) % 0x1_0000_0000
                &&& keeps_surroundings(world, r->Ok_0.world)
                &&& r->Ok_0.events == seq![
                    TraceEvent::CycleStart { cpu: world.cpu },
                    TraceEvent::Rs1Read { index: rs1 as u32, value: world.cpu.regs[rs1] },
                    TraceEvent::Rs2Read { index: rs2 as u32, value: world.cpu.regs[rs2] },
                    TraceEvent::CycleEnd { cpu: r->Ok_0.world.cpu },
                ]
            } else if middle >= 2 && odd {
                r == Err::<Effect<ND::Model, CSR::Model>, CycleFault>(
                    CycleFault::UnknownOpcode { opcode: world.words[pc as u64] },
                )
            } else {
                r is Ok && writes_register(
                    world,
                    r->Ok_0,
                    rs1,
                    rs2,
                    rd,
                    value,
                    (pc + 4) % 0x1_0000_0000,
                )
            }
        }),
{
    let w = world.words[world.cpu.pc as u64];
    let (a, b) = (world.cpu.regs[rs1], world.cpu.regs[rs2]);
    lemma_encoding(w, 0x73, rd as u32, 4, rs1 as u32, rs2 as u32, funct7 as u32);
    lemma_mop_number(funct7 as u8);
    let (x, y) = (field::residue(a as int), field::residue(b as int));
    field::lemma_residue_absorb(a as int, b as int);
    vstd::arithmetic::div_mod::lemma_sub_mod_noop(a as int, b as int, 0x7fff_ffff);
    reveal(isa::system_action);
    lemma_step_of_action::<C, M, ND, CSR>(world, w, rs1, rs2, rd);
    if isa::action_of::<C>(w, world.cpu.pc, a, b) == Ok::<Action, CycleFault>(Action::Nothing) {
        let e = state::step::<C, M, ND, CSR>(world)->Ok_0;
        assert(e.events =~= seq![
            TraceEvent::CycleStart { cpu: world.cpu },
            TraceEvent::Rs1Read { index: rs1 as u32, value: a },
            TraceEvent::Rs2Read { index: rs2 as u32, value: b },
            TraceEvent::CycleEnd { cpu: e.world.cpu },
        ]);
    }
}

/// The number of a modular operation by its bits.
proof fn lemma_mop_number(funct7: u8)
    requires
        funct7 < 0x80,
    ensures
        ({
            let middle = (funct7 as int / 2) % 4;
            isa::mop_number(funct7) == if middle % 2 == 0 && (funct7 as int / 0x20) % 2 == 1 {
                middle + 1
            } else {
                middle
            }
        }),
{
    assert((((funct7 & 0b110) >> 1) | ((funct7 & 0b100000) >> 5)) == if ((funct7 / 2) % 4) % 2 == 0
        && (funct7 / 0x20) % 2 == 1 {
        ((funct7 / 2) % 4 + 1) as u8
    } else {
        (funct7 / 2) % 4
    }) by (bit_vector)
        requires
            funct7 < 0x80,
    ;
}

/// The exchange with a control and status register, on a machine that has no other CSR instruction.
/// Number 0x7c0 is the oracle: the destination register gets its next word, where there has to be
/// one, and then it gets the value of the source register. An oracle may ask to be left alone for a
/// read into the register zero, which then gives zero, and for a write from the register zero.
/// Number 0x7ff is a marker and gives zero. Every other number requests a delegation, which has to
/// be allowed and not refused, does what it does, and gives zero.
#[verifier::rlimit(20)]
#[verifier::spinoff_prover]
pub proof fn law_csr_exchange<
    C: MachineConfig,
    M: MemorySource,
    ND: NonDeterminismCSRSource<M>,
    CSR: DelegationCSRProcessor,
>(
    world: World<ND::Model, CSR::Model>,
    number: int,
    rd: int,
    rs1: int,
)
    requires
        0 <= number < 0x1000,
        0 <= rd < 32,
        0 <= rs1 < 32,
        !C::SUPPORT_STANDARD_CSRS,
        C::SUPPORT_ONLY_CSRRW,
        is_at(world, 0x73 + 0x80 * rd + 0x1000 + 0x8000 * rs1 + 0x10_0000 * number),
    ensures
        ({
            let r = state::step::<C, M, ND, CSR>(world);
            let e = r->Ok_0;
            let pc = world.cpu.pc;
            let a = world.cpu.regs[rs1];
            let reads = !ND::SHOULD_MOCK_READS_BEFORE_WRITES || rd != 0;
            let writes = !ND::SHOULD_IGNORE_WRITES_AFTER_READS || rs1 != 0;
            let next = ND::next_word(world.oracle);
            let start = seq![
                TraceEvent::CycleStart { cpu: world.cpu },
                TraceEvent::Rs1Read { index: rs1 as u32, value: a },
                TraceEvent::Rs2Read {
                    index: (number % 0x20) as u32,
                    value: world.cpu.regs[number % 0x20],
                },
            ];
            if number == 0x7c0 {
                if reads && next is None {
                    r == Err::<Effect<ND::Model, CSR::Model>, CycleFault>(CycleFault::OracleRead)
                } else {
                    let value = if reads {
                        next->0
                    } else {
                        0
                    };
                    let after = if reads {
                        ND::after_read(world.oracle)
                    } else {
                        world.oracle
                    };
                    &&& r is Ok
                    &&& writes_only(world, e.world, rd, value as int)
                    &&& e.world.cpu.pc == (pc + 4) % 0x1_0000_0000
                    &&& e.world.words == world.words
                    &&& e.world.writable == world.writable
                    &&& e.world.processor == world.processor
                    &&& e.world.oracle == if writes {
                        ND::after_write(after, world.words, a)
                    } else {
                        after
                    }
                    &&& e.events == start + seq![
                        TraceEvent::NonDeterminismRead { value },
                        TraceEvent::NonDeterminismWrite { value: a },
                        TraceEvent::RdWrite {
                            index: rd as u32,
                            old_value: world.cpu.regs[rd],
                            value,
                        },
                        TraceEvent::CycleEnd { cpu: e.world.cpu },
                    ]
                }
            } else if number == 0x7ff {
                r is Ok && writes_register(
                    world,
                    e,
                    rs1,
                    number % 0x20,
                    rd,
                    0,
                    (pc + 4) % 0x1_0000_0000,
                )
            } else {
                let d = CSR::effect(
                    world.processor,
                    number as u16,
                    Cpu { regs: world.cpu.regs, pc: ((pc + 4) % 0x1_0000_0000) as u32 },
                    world.words,
                    world.writable,
                );
                if !C::delegation_allowed(number as u32) {
                    r == Err::<Effect<ND::Model, CSR::Model>, CycleFault>(
                        CycleFault::DelegationNotAllowed { csr: number as u32 },
                    )
                } else if d is None {
                    r == Err::<Effect<ND::Model, CSR::Model>, CycleFault>(
                        CycleFault::DelegationRefused { csr: number as u32 },
                    )
                } else {
                    &&& r is Ok
                    &&& e.world.cpu.pc == d->0.cpu.pc
                    &&& e.world.cpu.regs.len() == 32
                    &&& e.world.cpu.regs[rd] == 0
                    &&& forall|i: int|
                        0 <= i < 32 && i != rd ==> #[trigger] e.world.cpu.regs[i]
                            == d->0.cpu.regs[i]
                    &&& e.world.words == d->0.words
                    &&& e.world.writable == world.writable
                    &&& e.world.oracle == world.oracle
                    &&& e.world.processor == d->0.processor
                    &&& e.events == start + d->0.events + seq![
                        TraceEvent::RdWrite {
                            index: rd as u32,
                            old_value: d->0.cpu.regs[rd],
                            value: 0,
                        },
                        TraceEvent::CycleEnd { cpu: e.world.cpu },
                    ]
                }
            }
        }),
{
    let w = world.words[world.cpu.pc as u64];
    let a = world.cpu.regs[rs1];
    let pc = world.cpu.pc;
    let rs2 = number % 0x20;
    lemma_encoding(w, 0x73, rd as u32, 1, rs1 as u32, rs2 as u32, (number / 0x20) as u32);
    assert(instruction::funct12_field(w) == number);
    reveal(isa::system_action);
    assert(isa::action_of::<C>(w, pc, a, world.cpu.regs[rs2]) == Ok::<Action, CycleFault>(
        Action::Csr { number: number as u32 },
    ));
    let start = seq![
        TraceEvent::CycleStart { cpu: world.cpu },
        TraceEvent::Rs1Read { index: rs1 as u32, value: a },
        TraceEvent::Rs2Read { index: rs2 as u32, value: world.cpu.regs[rs2] },
    ];
    assert(state::opening_events(world.cpu, w) =~= start);
    let r = state::step::<C, M, ND, CSR>(world);
    let advanced = world.cpu.with_pc(bits::wrap32(pc + 4));
    assert(advanced == Cpu {
        regs: world.cpu.regs,
        pc: ((pc + 4) % 0x1_0000_0000) as u32,
    });
    if r is Ok {
        let e = r->Ok_0;
        if number == 0x7c0 {
            let value = if ND::SHOULD_MOCK_READS_BEFORE_WRITES && rd == 0 {
                0
            } else {
                ND::next_word(world.oracle)->0
            };
            assert(e.events =~= start + seq![
                TraceEvent::NonDeterminismRead { value },
                TraceEvent::NonDeterminismWrite { value: a },
                TraceEvent::RdWrite { index: rd as u32, old_value: world.cpu.regs[rd], value },
                TraceEvent::CycleEnd { cpu: e.world.cpu },
            ]);
        } else if number == 0x7ff {
            assert(e.events =~= seq![
                TraceEvent::CycleStart { cpu: world.cpu },
                TraceEvent::Rs1Read { index: rs1 as u32, value: a },
                TraceEvent::Rs2Read { index: rs2 as u32, value: world.cpu.regs[rs2] },
                TraceEvent::RdWrite { index: rd as u32, old_value: world.cpu.regs[rd], value: 0 },
                TraceEvent::CycleEnd { cpu: e.world.cpu },
            ]);
        } else {
            CSR::lemma_effect_is_confined(
                world.processor,
                number as u16,
                advanced,
                world.words,
                world.writable,
            );
            let d = CSR::effect(
                world.processor,
                number as u16,
                advanced,
                world.words,
                world.writable,
            )->0;
            assert(e.events =~= start + d.events + seq![
                TraceEvent::RdWrite { index: rd as u32, old_value: d.cpu.regs[rd], value: 0 },
                TraceEvent::CycleEnd { cpu: e.world.cpu },
            ]);
        }
    }
}

/// What is no instruction: a word at an address that is no multiple of four or holds none cannot be
/// fetched; a word whose lowest seven bits name no instruction, and the other instructions of the
/// kind of the CSR exchange, are not known.
pub proof fn law_no_instruction<
    C: MachineConfig,
    M: MemorySource,
    ND: NonDeterminismCSRSource<M>,
    CSR: DelegationCSRProcessor,
>(world: World<ND::Model, CSR::Model>)
    requires
        world.cpu.regs.len() == 32,
    ensures
        ({
            let r = state::step::<C, M, ND, CSR>(world);
            let pc = world.cpu.pc;
            let w = world.words[pc as u64];
            let op = w as int % 0x80;
            let funct3 = (w as int / 0x1000) % 8;
            if pc % 4 != 0 || !world.words.contains_key(pc as u64) {
                r == Err::<Effect<ND::Model, CSR::Model>, CycleFault>(CycleFault::Fetch { pc })
            } else if op == 0x73 && funct3 != 4 && funct3 != 0 && (C::SUPPORT_STANDARD_CSRS
                || !C::SUPPORT_ONLY_CSRRW) {
                r == Err::<Effect<ND::Model, CSR::Model>, CycleFault>(CycleFault::CsrMode)
            } else {
                (op != 0x37 && op != 0x17 && op != 0x6f && op != 0x67 && op != 0x63 && op != 0x13
                    && op != 0x33 && op != 0x03 && op != 0x23 && op != 0x73) || (op == 0x73
                    && funct3 != 1 && funct3 != 4) ==> r == Err::<
                    Effect<ND::Model, CSR::Model>,
                    CycleFault,
                >(CycleFault::UnknownOpcode { opcode: w })
            }
        }),
{
    let w = world.words[world.cpu.pc as u64];
    assert(w as int / 1 == w);
    reveal(isa::system_action);
}

} // verus!
