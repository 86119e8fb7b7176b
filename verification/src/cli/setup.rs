//! A cache for what the setups of circuits are computed from.
use crate::riscv_cycles;
use crate::riscv_cycles::{get_main_riscv_circuit_setup, MainCircuitPrecomputations, MAX_ROM_SIZE};
use crate::tables::driver::MachineTables;
use std::collections::hash_map::DefaultHasher;
use std::collections::HashMap;
use std::hash::Hasher;
use vstd::bytes::{u32_to_le_bytes, u64_to_le_bytes};
use vstd::prelude::*;
use vstd::std_specs::hash::DefaultHasherAdditionalSpecFns;

verus! {

/// The setups that were asked for before, each with its evaluations. Those of main and of reduced
/// circuits are found by a number that is computed from the program; those of delegation circuits
/// depend on no program.
pub struct SetupCache<R, D, E> {
    pub main_circuit_setup: HashMap<u64, (MainCircuitPrecomputations, E)>,
    pub reduced_circuit_setup: HashMap<u64, (R, E)>,
    pub delegations: Vec<(u32, D)>,
    pub delegation_evals: Vec<(u32, E)>,
}

/// The words of a program as bytes, the least significant one first.
pub open spec fn word_bytes(words: Seq<u32>) -> Seq<u8>
    decreases words.len(),
{
    if words.len() == 0 {
        seq![]
    } else {
        word_bytes(words.drop_last()) + vstd::bytes::spec_u32_to_le_bytes(words.last())
    }
}

/// What is hashed of a program: its length and its words.
pub open spec fn program_bytes(program: Seq<u32>) -> Seq<u8> {
    vstd::bytes::spec_u64_to_le_bytes(program.len() as u64) + word_bytes(program)
}

/// The number of a program.
pub open spec fn program_key(program: Seq<u32>) -> u64 {
    DefaultHasher::spec_finish(seq![program_bytes(program)])
}

/// The number of a program: the hash of its length and its words.
pub fn key_of(bytecode: &Vec<u32>) -> (r: u64)
    ensures
        r == program_key(bytecode@),
{
    let mut bytes: Vec<u8> = u64_to_le_bytes(bytecode.len() as u64);
    let ghost length = bytes@;
    let mut i: usize = 0;
    assert(length + word_bytes(bytecode@.take(0)) =~= length);
    while i < bytecode.len()
        invariant
            i <= bytecode@.len(),
            bytes@ == length + word_bytes(bytecode@.take(i as int)),
        decreases bytecode@.len() - i,
    {
        let mut word = u32_to_le_bytes(bytecode[i]);
        bytes.append(&mut word);
        assert(bytecode@.take(i + 1).drop_last() =~= bytecode@.take(i as int));
        assert(bytes@ =~= length + word_bytes(bytecode@.take(i + 1)));
        i = i + 1;
    }
    assert(bytecode@.take(i as int) =~= bytecode@);
    let mut hasher = DefaultHasher::new();
    hasher.write(bytes.as_slice());
    assert(hasher@ =~= seq![program_bytes(bytecode@)]);
    hasher.finish()
}

/// A cache after `key` was asked for, where `fresh` is what is computed if it was not there.
pub open spec fn asked<V>(cache: Map<u64, V>, key: u64, fresh: V) -> Map<u64, V> {
    if cache.contains_key(key) {
        cache
    } else {
        cache.insert(key, fresh)
    }
}

/// Asking for the same key again changes nothing and gives the same value.
pub proof fn law_asking_again_changes_nothing<V>(
    cache: Map<u64, V>,
    key: u64,
    fresh: V,
    other: V,
)
    ensures
        asked(asked(cache, key, fresh), key, other) == asked(cache, key, fresh),
        asked(cache, key, fresh).contains_key(key),
        cache.contains_key(key) ==> asked(cache, key, fresh)[key] == cache[key],
{
}

/// Asking for one key leaves all that is under the others as it is.
pub proof fn law_asking_keeps_the_rest<V>(cache: Map<u64, V>, key: u64, fresh: V, other: u64)
    requires
        cache.contains_key(other),
    ensures
        asked(cache, key, fresh).contains_key(other),
        asked(cache, key, fresh)[other] == cache[other],
{
}

/// Whether a cache has everything that another one has.
pub open spec fn extends<V>(cache: Map<u64, V>, later: Map<u64, V>) -> bool {
    forall|k: u64| #[trigger]
        cache.contains_key(k) ==> later.contains_key(k) && later[k] == cache[k]
}

/// A setup is found again by its program: after a program was asked for, whatever else was asked
/// for in between, asking for an equal program changes nothing and gives the setup of the first
/// time. `between` is the cache before the second request, `after` and `found` are what that
/// request leaves and gives.
pub proof fn law_setup_is_found_by_its_program<V>(
    before: Map<u64, V>,
    first: V,
    between: Map<u64, V>,
    after: Map<u64, V>,
    found: V,
    program: Seq<u32>,
    again: Seq<u32>,
)
    requires
        program == again,
        extends(asked(before, program_key(program), first), between),
        after == asked(between, program_key(again), found),
        after[program_key(again)] == found,
    ensures
        after == between,
        found == asked(before, program_key(program), first)[program_key(program)],
{
    let key = program_key(program);
    assert(asked(before, key, first).contains_key(key));
}

/// Whether a setup is that of a program.
pub open spec fn is_setup_of(
    setup: MainCircuitPrecomputations,
    machine: MachineTables,
    bytecode: Seq<u32>,
) -> bool {
    &&& riscv_cycles::is_compilation(
        setup.compilation,
        5,
        bytecode,
        riscv_cycles::allowed_delegations(),
    )
    &&& riscv_cycles::are_program_tables(
        setup.table_driver@,
        machine,
        5,
        bytecode,
        riscv_cycles::allowed_delegations(),
    )
    &&& setup.domain_size == riscv_cycles::DOMAIN_SIZE
    &&& setup.lde_factor == riscv_cycles::LDE_FACTOR
    &&& setup.lde_source_cosets@ == seq![0usize, 1usize]
    &&& setup.tree_cap_size == riscv_cycles::TREE_CAP_SIZE
}

impl<R, D, E> SetupCache<R, D, E> {
    /// An empty cache.
    pub fn new() -> (r: Self)
        ensures
            r.main_circuit_setup@ == Map::<u64, (MainCircuitPrecomputations, E)>::empty(),
            r.reduced_circuit_setup@ == Map::<u64, (R, E)>::empty(),
            r.delegations@.len() == 0,
            r.delegation_evals@.len() == 0,
    {
        SetupCache {
            main_circuit_setup: HashMap::new(),
            reduced_circuit_setup: HashMap::new(),
            delegations: Vec::new(),
            delegation_evals: Vec::new(),
        }
    }

    /// The setup of the main circuit of a program with its evaluations. If there is one under the
    /// number of the program it is given back; else it is made, and `evaluate` evaluates it.
    pub fn get_or_create_main_circuit<F: FnOnce(&MainCircuitPrecomputations) -> E>(
        &mut self,
        machine: MachineTables,
        bytecode: &Vec<u32>,
        evaluate: F,
    ) -> (r: &(MainCircuitPrecomputations, E))
        requires
            machine.well_formed(),
            machine.leaves_program_tables(),
            bytecode@.len() * 4 == MAX_ROM_SIZE,
            forall|setup: MainCircuitPrecomputations| #[trigger]
                is_setup_of(setup, machine, bytecode@) ==> call_requires(evaluate, (&setup,)),
        ensures
            final(self).main_circuit_setup@ == asked(
                old(self).main_circuit_setup@,
                program_key(bytecode@),
                *r,
            ),
            final(self).main_circuit_setup@[program_key(bytecode@)] == *r,
            !old(self).main_circuit_setup@.contains_key(program_key(bytecode@)) ==> {
                &&& is_setup_of(r.0, machine, bytecode@)
                &&& call_ensures(evaluate, (&r.0,), r.1)
            },
            extends(old(self).main_circuit_setup@, final(self).main_circuit_setup@),
            final(self).reduced_circuit_setup@ == old(self).reduced_circuit_setup@,
            final(self).delegations == old(self).delegations,
            final(self).delegation_evals == old(self).delegation_evals,
    {
        broadcast use vstd::std_specs::hash::group_hash_axioms;

        let key: u64 = key_of(bytecode);
        if !self.main_circuit_setup.contains_key(&key) {
            let setup = get_main_riscv_circuit_setup(machine, bytecode.as_slice());
            assert(is_setup_of(setup, machine, bytecode@));
            let evals = evaluate(&setup);
            self.main_circuit_setup.insert(key, (setup, evals));
        }
        self.main_circuit_setup.get(&key).unwrap()
    }

    /// The setup of the reduced circuit of a program with its evaluations. If there is one under
    /// the number of the program it is given back; else `create` makes it and `evaluate` evaluates
    /// it.
    pub fn get_or_create_reduced_circuit<
        F: FnOnce(&Vec<u32>) -> R,
        G: FnOnce(&R) -> E,
    >(&mut self, bytecode: &Vec<u32>, create: F, evaluate: G) -> (r: &(R, E))
        requires
            call_requires(create, (bytecode,)),
            forall|setup: R| #[trigger]
                call_ensures(create, (bytecode,), setup) ==> call_requires(evaluate, (&setup,)),
        ensures
            final(self).reduced_circuit_setup@ == asked(
                old(self).reduced_circuit_setup@,
                program_key(bytecode@),
                *r,
            ),
            final(self).reduced_circuit_setup@[program_key(bytecode@)] == *r,
            !old(self).reduced_circuit_setup@.contains_key(program_key(bytecode@)) ==> {
                &&& call_ensures(create, (bytecode,), r.0)
                &&& call_ensures(evaluate, (&r.0,), r.1)
            },
            extends(old(self).reduced_circuit_setup@, final(self).reduced_circuit_setup@),
            final(self).main_circuit_setup@ == old(self).main_circuit_setup@,
            final(self).delegations == old(self).delegations,
            final(self).delegation_evals == old(self).delegation_evals,
    {
        broadcast use vstd::std_specs::hash::group_hash_axioms;

        let key: u64 = key_of(bytecode);
        if !self.reduced_circuit_setup.contains_key(&key) {
            let setup = create(bytecode);
            let evals = evaluate(&setup);
            self.reduced_circuit_setup.insert(key, (setup, evals));
        }
        self.reduced_circuit_setup.get(&key).unwrap()
    }

    /// The setups of the delegation circuits and their evaluations: those that are there, or else
    /// `create` makes all of them and `evaluate` evaluates each.
    pub fn get_or_create_delegations<F: FnOnce() -> Vec<(u32, D)>, G: Fn(&D) -> E>(
        &mut self,
        create: F,
        evaluate: G,
    ) -> (r: (&Vec<(u32, D)>, &Vec<(u32, E)>))
        requires
            call_requires(create, ()),
            forall|setup: D| #[trigger] call_requires(evaluate, (&setup,)),
        ensures
            *r.0 == final(self).delegations,
            *r.1 == final(self).delegation_evals,
            old(self).delegations@.len() > 0 ==> final(self).delegations == old(self).delegations
                && final(self).delegation_evals == old(self).delegation_evals,
            old(self).delegations@.len() == 0 ==> {
                &&& call_ensures(create, (), final(self).delegations)
                &&& are_evaluations(
                    evaluate,
                    final(self).delegations@,
                    final(self).delegation_evals@,
                )
            },
            final(self).main_circuit_setup@ == old(self).main_circuit_setup@,
            final(self).reduced_circuit_setup@ == old(self).reduced_circuit_setup@,
    {
        if self.delegations.len() == 0 {
            let delegations = create();
            let mut delegation_evals: Vec<(u32, E)> = Vec::new();
            let mut i: usize = 0;
            while i < delegations.len()
                invariant
                    i <= delegations@.len(),
                    forall|setup: D| #[trigger] call_requires(evaluate, (&setup,)),
                    are_evaluations(
                        evaluate,
                        delegations@.take(i as int),
                        delegation_evals@,
                    ),
                decreases delegations@.len() - i,
            {
                let evals = evaluate(&delegations[i].1);
                delegation_evals.push((delegations[i].0, evals));
                i = i + 1;
            }
            assert(delegations@.take(i as int) =~= delegations@);
            self.delegations = delegations;
            self.delegation_evals = delegation_evals;
        }
        (&self.delegations, &self.delegation_evals)
    }
}

/// Whether a list has the evaluations of delegation circuits, under their types and in their order.
pub open spec fn are_evaluations<D, E, G: Fn(&D) -> E>(
    evaluate: G,
    setups: Seq<(u32, D)>,
    evals: Seq<(u32, E)>,
) -> bool {
    &&& evals.len() == setups.len()
    &&& forall|i: int|
        0 <= i < setups.len() ==> (#[trigger] evals[i]).0 == setups[i].0 && call_ensures(
            evaluate,
            (&setups[i].1,),
            evals[i].1,
        )
}

proof fn lemma_word_bytes(words: Seq<u32>, i: int, k: int)
    ensures
        word_bytes(words).len() == 4 * words.len(),
        0 <= i < words.len() && 0 <= k < 4 ==> word_bytes(words)[4 * i + k]
            == vstd::bytes::spec_u32_to_le_bytes(words[i])[k],
    decreases words.len(),
{
    vstd::bytes::lemma_auto_spec_u32_to_from_le_bytes();
    if words.len() > 0 {
        lemma_word_bytes(words.drop_last(), i, k);
        assert(vstd::bytes::spec_u32_to_le_bytes(words.last()).len() == 4);
    }
}

/// The number of a program is the hash of one run of bytes: eight for its length, and four for each
/// of its words in order, each time from the least significant byte on.
pub proof fn law_what_is_hashed_of_a_program(program: Seq<u32>, bytes: Seq<u8>)
    requires
        bytes.len() == 8 + 4 * program.len(),
        bytes.take(8) == vstd::bytes::spec_u64_to_le_bytes(program.len() as u64),
        forall|i: int, k: int|
            0 <= i < program.len() && 0 <= k < 4 ==> #[trigger] bytes[8 + 4 * i + k]
                == vstd::bytes::spec_u32_to_le_bytes(program[i])[k],
    ensures
        program_key(program) == DefaultHasher::spec_finish(seq![bytes]),
{
    vstd::bytes::lemma_auto_spec_u64_to_from_le_bytes();
    let all = program_bytes(program);
    lemma_word_bytes(program, 0, 0);
    assert(vstd::bytes::spec_u64_to_le_bytes(program.len() as u64).len() == 8);
    assert forall|j: int| 0 <= j < bytes.len() implies #[trigger] bytes[j] == all[j] by {
        if j < 8 {
            assert(bytes[j] == bytes.take(8)[j]);
        } else {
            let i = (j - 8) / 4;
            let k = (j - 8) % 4;
            lemma_word_bytes(program, i, k);
            assert(j == 8 + 4 * i + k);
            assert(bytes[8 + 4 * i + k] == vstd::bytes::spec_u32_to_le_bytes(program[i])[k]);
        }
    }
    assert(bytes =~= all);
}

/// A cache after a request has what it had, and nothing else but what was asked for: the value that
/// was there, or else the fresh one.
pub proof fn law_what_a_request_leaves<V>(cache: Map<u64, V>, key: u64, fresh: V, k: u64)
    ensures
        asked(cache, key, fresh).contains_key(k) <==> cache.contains_key(k) || k == key,
        cache.contains_key(k) ==> asked(cache, key, fresh)[k] == cache[k],
        !cache.contains_key(key) ==> asked(cache, key, fresh)[key] == fresh,
{
}

/// The setup of a program is made for its words and for the sizes of the main circuit.
pub proof fn law_setup_of_a_program(
    setup: MainCircuitPrecomputations,
    machine: MachineTables,
    bytecode: Seq<u32>,
    i: int,
)
    requires
        is_setup_of(setup, machine, bytecode),
        0 <= i < bytecode.len(),
    ensures
        ({
            let (address, low, high) = setup.compilation.rom_table.content.row_at(i);
            address == 4 * i && 0x1_0000 * high + low == bytecode[i]
        }),
        setup.domain_size == 0x40_0000,
        setup.lde_factor == 2,
        setup.lde_source_cosets@ == seq![0usize, 1usize],
        setup.tree_cap_size == 32,
{
}

/// The evaluations of delegation circuits are as many as the circuits, and each is that of the
/// circuit at its place, under the same type.
pub proof fn law_evaluations_of_delegations<D, E, G: Fn(&D) -> E>(
    evaluate: G,
    setups: Seq<(u32, D)>,
    evals: Seq<(u32, E)>,
    i: int,
)
    requires
        are_evaluations(evaluate, setups, evals),
        0 <= i < setups.len(),
    ensures
        evals.len() == setups.len(),
        evals[i].0 == setups[i].0,
        call_ensures(evaluate, (&setups[i].1,), evals[i].1),
{
}

} // verus!
