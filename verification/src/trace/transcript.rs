//! The words that the challenges for the memory and delegation arguments are drawn from.
use crate::tables::lookup;
use crate::tables::lookup::shift;
use crate::trace::records::FinalRegisterValue;
use vstd::prelude::*;

verus! {

/// The number of words that are hashed at once.
pub const BLAKE2S_BLOCK_SIZE_U32_WORDS: usize = 16;

/// The number of words of a digest.
pub const DIGEST_SIZE_U32_WORDS: usize = 8;

/// The top layer of a Merkle tree.
pub struct MerkleTreeCapVarLength {
    pub cap: Vec<[u32; 8]>,
}

/// The words of digests one after the other.
pub open spec fn cap_words(cap: Seq<[u32; 8]>) -> Seq<u32>
    decreases cap.len(),
{
    if cap.len() == 0 {
        seq![]
    } else {
        cap_words(cap.drop_last()) + cap.last()@
    }
}

/// The words of the tops of trees one after the other.
pub open spec fn caps_words(trees: Seq<MerkleTreeCapVarLength>) -> Seq<u32>
    decreases trees.len(),
{
    if trees.len() == 0 {
        seq![]
    } else {
        caps_words(trees.drop_last()) + cap_words(trees.last().cap@)
    }
}

/// The words of several lists of tops of trees.
pub open spec fn all_caps_words(lists: Seq<Vec<MerkleTreeCapVarLength>>) -> Seq<u32>
    decreases lists.len(),
{
    if lists.len() == 0 {
        seq![]
    } else {
        all_caps_words(lists.drop_last()) + caps_words(lists.last()@)
    }
}

/// Appends the words of digests.
fn append_cap(result: &mut Vec<u32>, cap: &Vec<[u32; 8]>)
    ensures
        final(result)@ == old(result)@ + cap_words(cap@),
{
    let ghost before = result@;
    let mut i: usize = 0;
    assert(cap@.take(0) =~= seq![]);
    assert(before + cap_words(cap@.take(0)) =~= before);
    while i < cap.len()
        invariant
            i <= cap@.len(),
            before == old(result)@,
            result@ == before + cap_words(cap@.take(i as int)),
        decreases cap@.len() - i,
    {
        let ghost so_far = result@;
        let digest: &[u32; 8] = &cap[i];
        let mut j: usize = 0;
        while j < 8
            invariant
                j <= 8,
                result@ == so_far + digest@.take(j as int),
            decreases 8 - j,
        {
            result.push(digest[j]);
            assert(digest@.take(j as int).push(digest@[j as int]) =~= digest@.take(j + 1));
            j = j + 1;
        }
        assert(digest@.take(8) =~= digest@);
        assert(cap@.take(i + 1).drop_last() =~= cap@.take(i as int));
        assert(before + cap_words(cap@.take(i as int)) + digest@ =~= before + (cap_words(
            cap@.take(i as int),
        ) + digest@));
        i = i + 1;
    }
    assert(cap@.take(i as int) =~= cap@);
}

/// Appends the words of the tops of trees.
fn append_caps(result: &mut Vec<u32>, trees: &[MerkleTreeCapVarLength])
    ensures
        final(result)@ == old(result)@ + caps_words(trees@),
{
    let ghost before = result@;
    let mut i: usize = 0;
    assert(trees@.take(0) =~= seq![]);
    assert(before + caps_words(trees@.take(0)) =~= before);
    while i < trees.len()
        invariant
            i <= trees@.len(),
            before == old(result)@,
            result@ == before + caps_words(trees@.take(i as int)),
        decreases trees@.len() - i,
    {
        append_cap(result, &trees[i].cap);
        let ghost added = cap_words(trees@[i as int].cap@);
        assert(trees@.take(i + 1).drop_last() =~= trees@.take(i as int));
        assert(before + caps_words(trees@.take(i as int)) + added =~= before + (caps_words(
            trees@.take(i as int),
        ) + added));
        i = i + 1;
    }
    assert(trees@.take(i as int) =~= trees@);
}

/// Appends the words of several lists of tops of trees.
fn append_all_caps(result: &mut Vec<u32>, lists: &[Vec<MerkleTreeCapVarLength>])
    ensures
        final(result)@ == old(result)@ + all_caps_words(lists@),
{
    let ghost before = result@;
    let mut i: usize = 0;
    assert(lists@.take(0) =~= seq![]);
    assert(before + all_caps_words(lists@.take(0)) =~= before);
    while i < lists.len()
        invariant
            i <= lists@.len(),
            before == old(result)@,
            result@ == before + all_caps_words(lists@.take(i as int)),
        decreases lists@.len() - i,
    {
        append_caps(result, lists[i].as_slice());
        let ghost added = caps_words(lists@[i as int]@);
        assert(lists@.take(i + 1).drop_last() =~= lists@.take(i as int));
        assert(before + all_caps_words(lists@.take(i as int)) + added =~= before + (all_caps_words(
            lists@.take(i as int),
        ) + added));
        i = i + 1;
    }
    assert(lists@.take(i as int) =~= lists@);
}

/// The words of the tops of trees one after the other.
pub fn flatten_merkle_caps(trees: &[MerkleTreeCapVarLength]) -> (r: Vec<u32>)
    ensures
        r@ == caps_words(trees@),
{
    let mut result: Vec<u32> = Vec::new();
    append_caps(&mut result, trees);
    assert(Seq::<u32>::empty() + caps_words(trees@) =~= caps_words(trees@));
    result
}

/// Every digest has eight words.
pub proof fn law_cap_length(cap: Seq<[u32; 8]>)
    ensures
        cap_words(cap).len() == 8 * cap.len(),
    decreases cap.len(),
{
    if cap.len() > 0 {
        law_cap_length(cap.drop_last());
    }
}

/// The low bits of a timestamp, and the rest.
pub open spec fn timestamp_halves(timestamp: u64, low_bits: int) -> (int, int) {
    (
        timestamp as int % lookup::power_of_two(low_bits),
        timestamp as int / lookup::power_of_two(low_bits),
    )
}

/// Whether both halves of a timestamp fit into words.
pub open spec fn timestamp_fits(timestamp: u64, low_bits: int) -> bool {
    timestamp_halves(timestamp, low_bits).1 <= u32::MAX
}

/// Splits a timestamp into its low bits and the rest.
pub fn split_timestamp(timestamp: u64, low_bits: u32) -> (r: (u32, u32))
    requires
        low_bits <= 32,
        timestamp_fits(timestamp, low_bits as int),
    ensures
        (r.0 as int, r.1 as int) == timestamp_halves(timestamp, low_bits as int),
{
    let unit: u64 = shift(low_bits);
    proof {
        vstd::arithmetic::power2::lemma2_to64();
        if low_bits < 32 {
            vstd::arithmetic::power2::lemma_pow2_strictly_increases(low_bits as nat, 32);
        }
        assert(timestamp as int % unit as int <= unit - 1);
    }
    let low: u64 = timestamp % unit;
    let high: u64 = timestamp / unit;
    (low as u32, high as u32)
}

/// The halves of a timestamp make it up again.
pub proof fn law_timestamp_from_halves(timestamp: u64, low_bits: int)
    ensures
        ({
            let (low, high) = timestamp_halves(timestamp, low_bits);
            timestamp == high * lookup::power_of_two(low_bits) + low
        }),
{
    let unit = lookup::power_of_two(low_bits);
    vstd::arithmetic::power2::lemma_pow2_pos(low_bits as nat);
    vstd::arithmetic::div_mod::lemma_fundamental_div_mod(timestamp as int, unit);
    assert(unit * (timestamp as int / unit) == (timestamp as int / unit) * unit)
        by (nonlinear_arith);
}

/// The words of a register: its value, and its timestamp in two halves.
pub open spec fn register_words(register: FinalRegisterValue, low_bits: int) -> Seq<u32> {
    let (low, high) = timestamp_halves(register.last_access_timestamp, low_bits);
    seq![register.value, low as u32, high as u32]
}

/// The words of registers one after the other.
pub open spec fn registers_words(registers: Seq<FinalRegisterValue>, low_bits: int) -> Seq<u32>
    decreases registers.len(),
{
    if registers.len() == 0 {
        seq![]
    } else {
        registers_words(registers.drop_last(), low_bits) + register_words(
            registers.last(),
            low_bits,
        )
    }
}

/// The words of the registers of the machine fill six blocks.
pub proof fn law_registers_fill_blocks(registers: Seq<FinalRegisterValue>, low_bits: int)
    ensures
        registers_words(registers, low_bits).len() == 3 * registers.len(),
        registers.len() == 32 ==> registers_words(registers, low_bits).len() == 6
            * BLAKE2S_BLOCK_SIZE_U32_WORDS,
    decreases registers.len(),
{
    if registers.len() > 0 {
        law_registers_fill_blocks(registers.drop_last(), low_bits);
    }
}

/// Appends the words of registers.
pub(crate) fn append_registers(result: &mut Vec<u32>, registers: &[FinalRegisterValue], low_bits: u32)
    requires
        low_bits <= 32,
        forall|i: int|
            0 <= i < registers@.len() ==> timestamp_fits(
                (#[trigger] registers@[i]).last_access_timestamp,
                low_bits as int,
            ),
    ensures
        final(result)@ == old(result)@ + registers_words(registers@, low_bits as int),
{
    let ghost before = result@;
    let mut i: usize = 0;
    assert(registers@.take(0) =~= seq![]);
    assert(before + registers_words(registers@.take(0), low_bits as int) =~= before);
    while i < registers.len()
        invariant
            low_bits <= 32,
            forall|i: int|
                0 <= i < registers@.len() ==> timestamp_fits(
                    (#[trigger] registers@[i]).last_access_timestamp,
                    low_bits as int,
                ),
            i <= registers@.len(),
            before == old(result)@,
            result@ == before + registers_words(registers@.take(i as int), low_bits as int),
        decreases registers@.len() - i,
    {
        let register: FinalRegisterValue = registers[i];
        let ghost so_far = registers_words(registers@.take(i as int), low_bits as int);
        let (low, high) = split_timestamp(register.last_access_timestamp, low_bits);
        result.push(register.value);
        result.push(low);
        result.push(high);
        let ghost added = register_words(register, low_bits as int);
        assert(registers@.take(i + 1).drop_last() =~= registers@.take(i as int));
        assert(added =~= seq![register.value, low, high]);
        assert(result@ =~= before + (so_far + added));
        i = i + 1;
    }
    assert(registers@.take(i as int) =~= registers@);
}

/// The block that announces a delegation type.
pub open spec fn type_block(delegation_type: u32) -> Seq<u32> {
    seq![delegation_type] + Seq::new(15, |i: int| 0u32)
}

/// The words of the circuits of one delegation type: none without circuits, otherwise the
/// announcement and the tops of the trees.
pub open spec fn delegation_words(
    delegation: (u32, Vec<Vec<MerkleTreeCapVarLength>>),
) -> Seq<u32> {
    if delegation.1@.len() == 0 {
        seq![]
    } else {
        type_block(delegation.0) + all_caps_words(delegation.1@)
    }
}

/// The words of the circuits of all delegation types.
pub open spec fn delegations_words(
    delegations: Seq<(u32, Vec<Vec<MerkleTreeCapVarLength>>)>,
) -> Seq<u32>
    decreases delegations.len(),
{
    if delegations.len() == 0 {
        seq![]
    } else {
        delegations_words(delegations.drop_last()) + delegation_words(delegations.last())
    }
}

/// The words of the registers and of the main circuits.
pub open spec fn main_words(
    setup: Seq<MerkleTreeCapVarLength>,
    registers: Seq<FinalRegisterValue>,
    circuits: Seq<Vec<MerkleTreeCapVarLength>>,
    low_bits: int,
) -> Seq<u32> {
    registers_words(registers, low_bits) + caps_words(setup) + all_caps_words(circuits)
}

/// Whether some words fill whole blocks.
pub open spec fn fills_blocks(words: Seq<u32>) -> bool {
    words.len() % (BLAKE2S_BLOCK_SIZE_U32_WORDS as nat) == 0
}

/// What is committed to before the challenges are drawn.
pub open spec fn is_transcript_input(
    setup: Seq<MerkleTreeCapVarLength>,
    registers: Seq<FinalRegisterValue>,
    circuits: Seq<Vec<MerkleTreeCapVarLength>>,
    delegations: Seq<(u32, Vec<Vec<MerkleTreeCapVarLength>>)>,
    low_bits: int,
) -> bool {
    &&& forall|i: int|
        0 <= i < registers.len() ==> timestamp_fits(
            (#[trigger] registers[i]).last_access_timestamp,
            low_bits,
        )
    &&& main_words(setup, registers, circuits, low_bits).len() > 0
    &&& fills_blocks(main_words(setup, registers, circuits, low_bits))
    &&& forall|i: int, j: int|
        0 <= i < j < delegations.len() ==> (#[trigger] delegations[i]).0 < (
        #[trigger] delegations[j]).0
    &&& forall|i: int|
        0 <= i < delegations.len() ==> fills_blocks(delegation_words(#[trigger] delegations[i]))
}

/// The words that the challenges for the memory and delegation arguments are drawn from: the
/// registers, the setup, the main circuits, and the delegation circuits in the order of their
/// types. Each part fills whole blocks.
pub fn fs_transform_for_memory_and_delegation_arguments(
    main_circuit_setup_cap: &[MerkleTreeCapVarLength],
    final_register_values: &[FinalRegisterValue],
    risc_v_circuit_merkle_tree_caps: &[Vec<MerkleTreeCapVarLength>],
    delegation_circuits_merkle_tree_caps: &[(u32, Vec<Vec<MerkleTreeCapVarLength>>)],
    timestamp_low_bits: u32,
) -> (r: Vec<u32>)
    requires
        timestamp_low_bits <= 32,
        is_transcript_input(
            main_circuit_setup_cap@,
            final_register_values@,
            risc_v_circuit_merkle_tree_caps@,
            delegation_circuits_merkle_tree_caps@,
            timestamp_low_bits as int,
        ),
    ensures
        r@ == main_words(
            main_circuit_setup_cap@,
            final_register_values@,
            risc_v_circuit_merkle_tree_caps@,
            timestamp_low_bits as int,
        ) + delegations_words(delegation_circuits_merkle_tree_caps@),
        fills_blocks(r@),
{
    let mut transcript: Vec<u32> = Vec::new();
    append_registers(&mut transcript, final_register_values, timestamp_low_bits);
    append_caps(&mut transcript, main_circuit_setup_cap);
    append_all_caps(&mut transcript, risc_v_circuit_merkle_tree_caps);
    let ghost main = main_words(
        main_circuit_setup_cap@,
        final_register_values@,
        risc_v_circuit_merkle_tree_caps@,
        timestamp_low_bits as int,
    );
    assert(transcript@ =~= main);
    let ghost delegations = delegation_circuits_merkle_tree_caps@;
    let mut i: usize = 0;
    assert(delegations.take(0) =~= seq![]);
    assert(main + delegations_words(delegations.take(0)) =~= main);
    while i < delegation_circuits_merkle_tree_caps.len()
        invariant
            delegations == delegation_circuits_merkle_tree_caps@,
            i <= delegations.len(),
            forall|i: int|
                0 <= i < delegations.len() ==> fills_blocks(
                    delegation_words(#[trigger] delegations[i]),
                ),
            transcript@ == main + delegations_words(delegations.take(i as int)),
            fills_blocks(transcript@),
        decreases delegations.len() - i,
    {
        let ghost so_far = delegations_words(delegations.take(i as int));
        let ghost added = delegation_words(delegations[i as int]);
        let delegation = &delegation_circuits_merkle_tree_caps[i];
        if delegation.1.len() > 0 {
            append_type_block(&mut transcript, delegation.0);
        }
        append_all_caps(&mut transcript, delegation.1.as_slice());
        assert(transcript@ =~= main + (so_far + added));
        assert(delegations.take(i + 1).drop_last() =~= delegations.take(i as int));
        assert(fills_blocks(added));
        i = i + 1;
    }
    assert(delegations.take(i as int) =~= delegations);
    transcript
}

/// Appends the announcement of a delegation type.
fn append_type_block(result: &mut Vec<u32>, delegation_type: u32)
    ensures
        final(result)@ == old(result)@ + type_block(delegation_type),
{
    let ghost before = result@;
    result.push(delegation_type);
    let mut j: usize = 1;
    while j < BLAKE2S_BLOCK_SIZE_U32_WORDS
        invariant
            1 <= j <= BLAKE2S_BLOCK_SIZE_U32_WORDS,
            result@ == before + type_block(delegation_type).take(j as int),
        decreases BLAKE2S_BLOCK_SIZE_U32_WORDS - j,
    {
        result.push(0);
        assert(type_block(delegation_type).take(j + 1) =~= type_block(delegation_type).take(
            j as int,
        ).push(0));
        j = j + 1;
    }
    assert(type_block(delegation_type).take(16) =~= type_block(delegation_type));
}

/// The words of digests stand one after the other: the word `j` of the digest `i` stands at the
/// place `8 * i + j`, and there are no others.
pub proof fn law_words_of_digests(cap: Seq<[u32; 8]>, i: int, j: int)
    requires
        0 <= i < cap.len(),
        0 <= j < 8,
    ensures
        cap_words(cap).len() == 8 * cap.len(),
        cap_words(cap)[8 * i + j] == cap[i]@[j],
    decreases cap.len(),
{
    law_cap_length(cap);
    law_cap_length(cap.drop_last());
    if i < cap.len() - 1 {
        law_words_of_digests(cap.drop_last(), i, j);
    }
}

/// The words of the tops of trees are those of each tree in turn: a single tree gives the words of
/// its digests, and what follows it adds its words behind.
pub proof fn law_words_of_trees(
    first: Seq<MerkleTreeCapVarLength>,
    tree: MerkleTreeCapVarLength,
    second: Seq<MerkleTreeCapVarLength>,
)
    ensures
        caps_words(Seq::empty()) == Seq::<u32>::empty(),
        caps_words(seq![tree]) == cap_words(tree.cap@),
        caps_words(first + second) == caps_words(first) + caps_words(second),
    decreases second.len(),
{
    let alone = seq![tree];
    assert(alone.drop_last() =~= Seq::<MerkleTreeCapVarLength>::empty());
    assert(caps_words(alone.drop_last()) == Seq::<u32>::empty());
    assert(caps_words(alone) =~= cap_words(tree.cap@));
    if second.len() == 0 {
        assert(first + second =~= first);
        assert(caps_words(first + second) =~= caps_words(first) + caps_words(second));
    } else {
        law_words_of_trees(first, tree, second.drop_last());
        assert((first + second).drop_last() =~= first + second.drop_last());
        assert((first + second).last() == second.last());
        assert(caps_words(first + second) =~= caps_words(first) + caps_words(second));
    }
}

/// The words of circuits are those of each circuit in turn.
pub proof fn law_words_of_circuits(
    first: Seq<Vec<MerkleTreeCapVarLength>>,
    circuit: Vec<MerkleTreeCapVarLength>,
    second: Seq<Vec<MerkleTreeCapVarLength>>,
)
    ensures
        all_caps_words(Seq::empty()) == Seq::<u32>::empty(),
        all_caps_words(seq![circuit]) == caps_words(circuit@),
        all_caps_words(first + second) == all_caps_words(first) + all_caps_words(second),
    decreases second.len(),
{
    let alone = seq![circuit];
    assert(alone.drop_last() =~= Seq::<Vec<MerkleTreeCapVarLength>>::empty());
    assert(all_caps_words(alone.drop_last()) == Seq::<u32>::empty());
    assert(all_caps_words(alone) =~= caps_words(circuit@));
    if second.len() == 0 {
        assert(first + second =~= first);
        assert(all_caps_words(first + second) =~= all_caps_words(first) + all_caps_words(second));
    } else {
        law_words_of_circuits(first, circuit, second.drop_last());
        assert((first + second).drop_last() =~= first + second.drop_last());
        assert((first + second).last() == second.last());
        assert(all_caps_words(first + second) =~= all_caps_words(first) + all_caps_words(second));
    }
}

/// The words of registers stand in threes, in the order of the registers: the value, the low bits
/// of the timestamp, and the rest of it.
pub proof fn law_words_of_registers(registers: Seq<FinalRegisterValue>, low_bits: nat, i: int)
    requires
        0 <= i < registers.len(),
        low_bits <= 32,
        registers[i].last_access_timestamp as int / vstd::arithmetic::power2::pow2(low_bits) as int
            <= u32::MAX,
    ensures
        timestamp_fits(registers[i].last_access_timestamp, low_bits as int),
        ({
            let words = registers_words(registers, low_bits as int);
            let timestamp = registers[i].last_access_timestamp;
            let unit = vstd::arithmetic::power2::pow2(low_bits);
            &&& words.len() == 3 * registers.len()
            &&& words[3 * i] == registers[i].value
            &&& words[3 * i + 1] == timestamp as int % unit as int
            &&& words[3 * i + 2] == timestamp as int / unit as int
        }),
    decreases registers.len(),
{
    law_registers_fill_blocks(registers, low_bits as int);
    law_registers_fill_blocks(registers.drop_last(), low_bits as int);
    if i < registers.len() - 1 {
        law_words_of_registers(registers.drop_last(), low_bits, i);
    } else {
        let timestamp = registers[i].last_access_timestamp;
        let unit = lookup::power_of_two(low_bits as int);
        vstd::arithmetic::power2::lemma2_to64();
        vstd::arithmetic::power2::lemma_pow2_pos(low_bits);
        if low_bits < 32 {
            vstd::arithmetic::power2::lemma_pow2_strictly_increases(low_bits, 32);
        }
        vstd::arithmetic::div_mod::lemma_mod_bound(timestamp as int, unit);
        vstd::arithmetic::div_mod::lemma_div_pos_is_pos(timestamp as int, unit);
    }
}

/// What is drawn from grows with what is committed to. The part of the main circuits holds nothing
/// where there is nothing; each register adds its value and the halves of its timestamp behind
/// those of the registers before it; each tree of the setup adds its words behind the registers;
/// and each circuit, however many there are before it, adds its words at the end.
pub proof fn law_transcript_holds_every_circuit(
    setup: Seq<MerkleTreeCapVarLength>,
    tree: MerkleTreeCapVarLength,
    registers: Seq<FinalRegisterValue>,
    register: FinalRegisterValue,
    circuits: Seq<Vec<MerkleTreeCapVarLength>>,
    circuit: Vec<MerkleTreeCapVarLength>,
    low_bits: int,
)
    ensures
        main_words(Seq::empty(), Seq::empty(), Seq::empty(), low_bits) == Seq::<u32>::empty(),
        main_words(Seq::empty(), registers.push(register), Seq::empty(), low_bits) == main_words(
            Seq::empty(),
            registers,
            Seq::empty(),
            low_bits,
        ) + registers_words(seq![register], low_bits),
        main_words(setup.push(tree), registers, Seq::empty(), low_bits) == main_words(
            setup,
            registers,
            Seq::empty(),
            low_bits,
        ) + cap_words(tree.cap@),
        main_words(setup, registers, circuits.push(circuit), low_bits) == main_words(
            setup,
            registers,
            circuits,
            low_bits,
        ) + caps_words(circuit@),
        main_words(setup, registers, circuits, low_bits).len() == 3 * registers.len() + caps_words(
            setup,
        ).len() + all_caps_words(circuits).len(),
{
    let none = Seq::<MerkleTreeCapVarLength>::empty();
    let no_circuits = Seq::<Vec<MerkleTreeCapVarLength>>::empty();
    let nothing = Seq::<u32>::empty();
    assert(caps_words(none) == nothing && all_caps_words(no_circuits) == nothing);
    assert(registers_words(Seq::<FinalRegisterValue>::empty(), low_bits) == nothing);
    assert(main_words(none, Seq::empty(), no_circuits, low_bits) =~= nothing);
    let alone = seq![register];
    assert(alone.drop_last() =~= Seq::<FinalRegisterValue>::empty());
    assert(registers_words(alone, low_bits) =~= register_words(register, low_bits));
    assert(registers.push(register).drop_last() =~= registers);
    assert(main_words(none, registers.push(register), no_circuits, low_bits) =~= main_words(
        none,
        registers,
        no_circuits,
        low_bits,
    ) + registers_words(alone, low_bits));
    assert(setup.push(tree).drop_last() =~= setup);
    assert(main_words(setup.push(tree), registers, no_circuits, low_bits) =~= main_words(
        setup,
        registers,
        no_circuits,
        low_bits,
    ) + cap_words(tree.cap@));
    assert(circuits.push(circuit).drop_last() =~= circuits);
    assert(main_words(setup, registers, circuits.push(circuit), low_bits) =~= main_words(
        setup,
        registers,
        circuits,
        low_bits,
    ) + caps_words(circuit@));
    law_registers_fill_blocks(registers, low_bits);
}

/// The circuits of a delegation type are announced by a block that begins with the type and is zero
/// behind it, and follow in their order; a type without circuits is not mentioned. The types come
/// in the order in which they are given.
pub proof fn law_words_of_delegations(
    first: Seq<(u32, Vec<Vec<MerkleTreeCapVarLength>>)>,
    delegation: (u32, Vec<Vec<MerkleTreeCapVarLength>>),
    second: Seq<(u32, Vec<Vec<MerkleTreeCapVarLength>>)>,
)
    ensures
        delegations_words(Seq::empty()) == Seq::<u32>::empty(),
        ({
            let words = delegations_words(seq![delegation]);
            let circuits = delegation.1@;
            if circuits.len() == 0 {
                words.len() == 0
            } else {
                &&& words.len() == 16 + all_caps_words(circuits).len()
                &&& words[0] == delegation.0
                &&& forall|k: int| 1 <= k < 16 ==> #[trigger] words[k] == 0
                &&& words.skip(16) == all_caps_words(circuits)
            }
        }),
        delegations_words(first + second) == delegations_words(first) + delegations_words(second),
    decreases second.len(),
{
    let alone = seq![delegation];
    assert(alone.drop_last() =~= Seq::<(u32, Vec<Vec<MerkleTreeCapVarLength>>)>::empty());
    assert(delegations_words(alone.drop_last()) == Seq::<u32>::empty());
    assert(delegations_words(alone) =~= delegation_words(delegation));
    if delegation.1@.len() > 0 {
        assert(delegations_words(alone).skip(16) =~= all_caps_words(delegation.1@));
    }
    if second.len() == 0 {
        assert(first + second =~= first);
        assert(delegations_words(first + second) =~= delegations_words(first) + delegations_words(
            second,
        ));
    } else {
        law_words_of_delegations(first, delegation, second.drop_last());
        assert((first + second).drop_last() =~= first + second.drop_last());
        assert((first + second).last() == second.last());
        assert(delegations_words(first + second) =~= delegations_words(first) + delegations_words(
            second,
        ));
    }
}

/// A block has sixteen words, and so many fill whole blocks as are a multiple of that. A digest has
/// half as many.
pub proof fn law_whole_blocks(blocks: Seq<Seq<u32>>, words: Seq<u32>)
    requires
        blocks.flatten() == words,
        forall|i: int| 0 <= i < blocks.len() ==> (#[trigger] blocks[i]).len() == 16,
    ensures
        words.len() == 16 * blocks.len(),
        fills_blocks(words),
        BLAKE2S_BLOCK_SIZE_U32_WORDS == 16,
        DIGEST_SIZE_U32_WORDS == 8,
    decreases blocks.len(),
{
    if blocks.len() > 0 {
        law_whole_blocks(blocks.drop_first(), blocks.drop_first().flatten());
    }
}

} // verus!
