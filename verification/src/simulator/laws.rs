//! What holds of every instruction.
use crate::bits;
use crate::simulator::abstractions::{
    DelegationCSRProcessor, MemorySource, NonDeterminismCSRSource, TraceEvent,
};
use crate::simulator::config::{MachineConfig, MARKER_CSR, NON_DETERMINISM_CSR};
use crate::simulator::instruction;
use crate::simulator::instruction::{
    OPCODE_BRANCH, OPCODE_JAL, OPCODE_JALR, OPCODE_LOAD, OPCODE_STORE, OPCODE_SYSTEM,
};
use crate::simulator::isa;
use crate::simulator::memory;
use crate::simulator::run;
use crate::simulator::state;
use crate::simulator::state::World;
use vstd::prelude::*;

verus! {

/// The instruction that jumps to itself and links nothing.
pub const SELF_LOOP: u32 = 0x0000_006f;

/// The instruction that a world is about to execute.
pub open spec fn next_instruction<N, P>(world: World<N, P>) -> u32 {
    world.words[world.cpu.pc as u64]
}

/// A self-loop ends a program: its cycle leaves the world as it is and reports the end.
#[verifier::rlimit(40)]
#[verifier::spinoff_prover]
pub proof fn law_self_loop_is_final<
    C: MachineConfig,
    M: MemorySource,
    ND: NonDeterminismCSRSource<M>,
    CSR: DelegationCSRProcessor,
>(world: World<ND::Model, CSR::Model>, cycles: nat)
    requires
        run::registers_ok(world),
        world.cpu.pc % 4 == 0,
        world.words.contains_key(world.cpu.pc as u64),
        next_instruction(world) == SELF_LOOP,
    ensures
        run::run::<C, M, ND, CSR>(world, cycles) is Ok,
        run::run::<C, M, ND, CSR>(world, cycles)->Ok_0.world == world,
        run::run::<C, M, ND, CSR>(world, cycles)->Ok_0.finished == (cycles > 0),
    decreases cycles,
{
    if cycles > 0 {
        law_self_loop_is_final::<C, M, ND, CSR>(world, (cycles - 1) as nat);
        reveal(run::run_one_more);
        reveal(isa::jump_action);
        let w = SELF_LOOP;
        assert(instruction::opcode_field(w) == OPCODE_JAL);
        assert(instruction::rd_field(w) == 0);
        assert(instruction::rs1_field(w) == 0);
        assert(instruction::rs2_field(w) == 0);
        assert(instruction::j_immediate(w) == 0);
        let done = state::step::<C, M, ND, CSR>(world)->Ok_0;
        assert(done.world.cpu.regs =~= world.cpu.regs);
        assert(done.world == world);
    }
}

/// A cycle changes no register but its destination, unless it requests a delegation; it changes
/// memory only by a store or a delegation, and then only the word stored to; and it advances the
/// program counter by four unless it jumps or branches.
#[verifier::rlimit(40)]
#[verifier::spinoff_prover]
pub proof fn law_cycle_changes_only_what_it_names<
    C: MachineConfig,
    M: MemorySource,
    ND: NonDeterminismCSRSource<M>,
    CSR: DelegationCSRProcessor,
>(world: World<ND::Model, CSR::Model>)
    requires
        run::registers_ok(world),
        state::step::<C, M, ND, CSR>(world) is Ok,
    ensures
        ({
            let w = next_instruction(world);
            let op = instruction::opcode_field(w);
            let after = state::step::<C, M, ND, CSR>(world)->Ok_0.world;
            let delegates = requests_delegation(w);
            let jumps = op == OPCODE_JAL || op == OPCODE_JALR || op == OPCODE_BRANCH;
            &&& !delegates ==> forall|i: int|
                0 <= i < 32 && i != instruction::rd_field(w) ==> after.cpu.regs[i]
                    == #[trigger] world.cpu.regs[i]
            &&& !delegates && op != OPCODE_STORE ==> after.words == world.words
            &&& !delegates ==> after.processor == world.processor
            &&& op != OPCODE_SYSTEM ==> after.oracle == world.oracle
            &&& !delegates && !jumps ==> after.cpu.pc == bits::wrap32(world.cpu.pc + 4)
            &&& jumps ==> after.cpu.pc % 4 == 0 || after.cpu.pc == bits::wrap32(world.cpu.pc + 4)
        }),
{
    let w = next_instruction(world);
    isa::lemma_action_has_shape::<C>(
        w,
        world.cpu.pc,
        world.cpu.regs[instruction::rs1_field(w)],
        state::second_operand(world.cpu, w),
    );
}

/// Whether the instruction `w` requests a delegation.
pub open spec fn requests_delegation(w: u32) -> bool {
    instruction::opcode_field(w) == OPCODE_SYSTEM && instruction::funct3_field(w) == 1
        && instruction::funct12_field(w) != NON_DETERMINISM_CSR && instruction::funct12_field(w)
        != MARKER_CSR
}

/// What the delegation that the next cycle requests traces itself; nothing if it requests none.
pub open spec fn delegation_trace<CSR: DelegationCSRProcessor, N>(
    world: World<N, CSR::Model>,
) -> Seq<TraceEvent> {
    let w = next_instruction(world);
    if requests_delegation(w) {
        CSR::effect(
            world.processor,
            instruction::funct12_field(w) as u16,
            world.cpu.with_pc(bits::wrap32(world.cpu.pc + 4)),
            world.words,
            world.writable,
        )->0.events
    } else {
        seq![]
    }
}

/// A cycle's trace opens with the state before it and the read of the first source register, and
/// closes with the state after it. Apart from what a delegation traces itself, which stands behind
/// the reads of the source registers, there is no other start, no other end and no other such read;
/// the second source register is read third, unless the instruction is a load.
#[verifier::rlimit(20)]
#[verifier::spinoff_prover]
pub proof fn law_trace_brackets_the_cycle<
    C: MachineConfig,
    M: MemorySource,
    ND: NonDeterminismCSRSource<M>,
    CSR: DelegationCSRProcessor,
>(world: World<ND::Model, CSR::Model>)
    requires
        state::step::<C, M, ND, CSR>(world) is Ok,
    ensures
        ({
            let w = next_instruction(world);
            let rs1 = instruction::rs1_field(w);
            let e = state::step::<C, M, ND, CSR>(world)->Ok_0;
            let own = delegation_trace::<CSR, ND::Model>(world);
            &&& e.events.len() >= 3 + own.len()
            &&& e.events[0] == (TraceEvent::CycleStart { cpu: world.cpu })
            &&& e.events[1] == (TraceEvent::Rs1Read {
                index: rs1 as u32,
                value: world.cpu.regs[rs1],
            })
            &&& e.events.last() == (TraceEvent::CycleEnd { cpu: e.world.cpu })
            &&& forall|i: int|
                0 <= i < own.len() ==> e.events[3 + i] == #[trigger] own[i]
            &&& forall|i: int|
                0 <= i < e.events.len() && !(3 <= i < 3 + own.len()) ==> {
                    &&& (#[trigger] e.events[i] is CycleStart <==> i == 0)
                    &&& (e.events[i] is CycleEnd <==> i == e.events.len() - 1)
                    &&& (e.events[i] is Rs1Read <==> i == 1)
                    &&& (e.events[i] is Rs2Read <==> i == 2 && instruction::opcode_field(w)
                        != OPCODE_LOAD)
                }
        }),
{
    let w = next_instruction(world);
    isa::lemma_action_has_shape::<C>(
        w,
        world.cpu.pc,
        world.cpu.regs[instruction::rs1_field(w)],
        state::second_operand(world.cpu, w),
    );
    let cpu = world.cpu;
    let rs1 = instruction::rs1_field(w);
    let a = cpu.regs[rs1];
    let b = state::second_operand(cpu, w);
    let opening = state::opening_events(cpu, w);
    let middle = state::perform::<C, M, ND, CSR>(
        world.with_cpu(cpu.with_pc(bits::wrap32(cpu.pc + 4))),
        isa::action_of::<C>(w, cpu.pc, a, b)->Ok_0,
        instruction::rd_field(w),
        rs1,
        a,
        b,
    )->Ok_0.events;
    let e = state::step::<C, M, ND, CSR>(world)->Ok_0;
    let own = delegation_trace::<CSR, ND::Model>(world);
    assert(e.events == (opening + middle).push(TraceEvent::CycleEnd { cpu: e.world.cpu }));
    assert(own.len() <= middle.len());
    assert forall|i: int| 0 <= i < own.len() implies e.events[3 + i] == #[trigger] own[i] by {
        assert(middle[i] == own[i]);
    }
    assert forall|i: int| own.len() <= i < middle.len() implies !(#[trigger] middle[i] is CycleStart)
        && !(middle[i] is CycleEnd) && !(middle[i] is Rs1Read) && !(middle[i] is Rs2Read) by {}
    assert forall|i: int| 0 <= i < e.events.len() && !(3 <= i < 3 + own.len()) implies {
        &&& (#[trigger] e.events[i] is CycleStart <==> i == 0)
        &&& (e.events[i] is CycleEnd <==> i == e.events.len() - 1)
        &&& (e.events[i] is Rs1Read <==> i == 1)
        &&& (e.events[i] is Rs2Read <==> i == 2 && instruction::opcode_field(w) != OPCODE_LOAD)
    } by {
        if opening.len() <= i < opening.len() + middle.len() {
            assert(e.events[i] == middle[i - opening.len()]);
        }
    }
}

/// A word that is stored is what the next load from the same address reads.
#[verifier::rlimit(40)]
#[verifier::spinoff_prover]
pub proof fn law_load_reads_what_was_stored<
    C: MachineConfig,
    M: MemorySource,
    ND: NonDeterminismCSRSource<M>,
    CSR: DelegationCSRProcessor,
>(
    world: World<ND::Model, CSR::Model>,
    address: u32,
    length: u32,
    kind: isa::LoadKind,
    rd: int,
    value: u32,
)
    requires
        0 < rd < 32,
        run::registers_ok(world),
        kind.length() == length,
        memory::is_aligned_access(address as u64, length),
        world.words.contains_key(memory::word_address(address as u64)),
        world.writable.contains(memory::word_address(address as u64)),
    ensures
        ({
            let stored = state::perform::<C, M, ND, CSR>(
                world,
                isa::Action::Store { address, length },
                rd,
                0,
                0,
                value,
            );
            let loaded = state::perform::<C, M, ND, CSR>(
                stored->Ok_0.world,
                isa::Action::Load { address, kind },
                rd,
                0,
                0,
                0,
            );
            &&& stored is Ok
            &&& loaded is Ok
            &&& loaded->Ok_0.world.cpu.regs[rd] == kind.extended(
                memory::sub_word(value, 0, length as int),
            )
        }),
{
    let at = memory::word_address(address as u64);
    memory::law_written_bytes_are_read_back(
        world.words[at],
        value,
        (address % 4) as int,
        length as int,
    );
}

/// Division and remainder go together: the dividend is the divisor times the quotient plus the
/// remainder, signed or unsigned, and a signed remainder that is not zero has the sign of the
/// dividend. The one signed division that overflows, the least number by minus one, gives the
/// dividend and no remainder.
pub proof fn law_division_identity<C: MachineConfig>(a: u32, b: u32)
    requires
        b != 0,
        C::SUPPORT_DIV,
        C::SUPPORT_SIGNED_DIV,
    ensures
        ({
            let quotient = bits::signed(isa::multiplication_result::<C>(4, a, b)->0);
            let remainder = bits::signed(isa::multiplication_result::<C>(6, a, b)->0);
            &&& if a == 0x8000_0000 && b == 0xffff_ffff {
                quotient == bits::signed(a) && remainder == 0
            } else {
                bits::signed(b) * quotient + remainder == bits::signed(a)
            }
            &&& remainder != 0 ==> (remainder < 0 <==> bits::signed(a) < 0)
            &&& isa::magnitude(remainder) < isa::magnitude(bits::signed(b))
        }),
        ({
            let quotient = isa::multiplication_result::<C>(5, a, b)->0;
            let remainder = isa::multiplication_result::<C>(7, a, b)->0;
            &&& b * quotient + remainder == a
            &&& remainder < b
        }),
{
    let (x, y) = (bits::signed(a), bits::signed(b));
    let (m, n) = (isa::magnitude(x), isa::magnitude(y));
    let (q, r) = (m / n, m % n);
    vstd::arithmetic::div_mod::lemma_fundamental_div_mod(m, n);
    vstd::arithmetic::div_mod::lemma_fundamental_div_mod(a as int, b as int);
    assert(0 <= q <= 0x8000_0000 && (n > 1 ==> q < 0x8000_0000) && 0 <= r < n) by (nonlinear_arith)
        requires
            0 <= m <= 0x8000_0000,
            1 <= n <= 0x8000_0000,
            m == n * q + r,
            q == m / n,
            r == m % n,
    ;
    let tq = isa::truncated_quotient(x, y);
    let tr = isa::truncated_remainder(x, y);
    assert(x == y * tq + tr) by (nonlinear_arith)
        requires
            m == n * q + r,
            m == if x < 0 { -x } else { x },
            n == if y < 0 { -y } else { y },
            tq == if (x < 0) == (y < 0) { q } else { -q },
            tr == if x < 0 { -r } else { r },
    ;
    let quotient = bits::signed(bits::wrap32(tq));
    assert(bits::signed(bits::wrap32(tr)) == tr);
    assert(n == 1 ==> q == m && r == 0) by (nonlinear_arith)
        requires
            m == n * q + r,
            0 <= r < n,
    ;
    if tq == 0x8000_0000 {
        // Only the least value divided by minus one overflows.
        assert(quotient == -0x8000_0000);
        assert(n == 1 && y == -1);
        assert(y * quotient == 0x8000_0000) by (nonlinear_arith)
            requires
                y == -1,
                quotient == -0x8000_0000,
        ;
        assert(r == 0);
        assert(x == -0x8000_0000);
    } else {
        assert(quotient == tq);
    }
}

/// The two halves of a product: the lower word and the unsigned upper word make up the full one.
pub proof fn law_product_halves<C: MachineConfig>(a: u32, b: u32)
    requires
        C::SUPPORT_MUL,
    ensures
        isa::multiplication_result::<C>(3, a, b)->0 * 0x1_0000_0000
            + isa::multiplication_result::<C>(0, a, b)->0 == a * b,
{
    assert(0 <= a * b <= 0xffff_ffff * 0xffff_ffff) by (nonlinear_arith)
        requires
            0 <= a <= 0xffff_ffff,
            0 <= b <= 0xffff_ffff,
    ;
}

} // verus!
