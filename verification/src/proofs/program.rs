//! The proof of a program: the proofs of its circuits and what they have in common.
use crate::proofs::circuit_proof;
use crate::proofs::circuit_proof::{append_proofs, append_words, Proof, ProofModel};
use crate::trace::records::FinalRegisterValue;
use crate::trace::transcript;
use crate::trace::transcript::append_registers;
use std::collections::BTreeMap;
use vstd::prelude::*;

verus! {

/// The proof of a program.
pub struct ProgramProof {
    pub base_layer_proofs: Vec<Proof>,
    pub delegation_proofs: BTreeMap<u32, Vec<Proof>>,
    pub register_final_values: Vec<FinalRegisterValue>,
    pub end_params: [u32; 8],
    pub recursion_chain_preimage: Option<[u32; 16]>,
    pub recursion_chain_hash: Option<[u32; 8]>,
}

/// The counts of the proofs of a program and what the proofs have in common.
pub struct ProofMetadata {
    pub basic_proof_count: usize,
    pub reduced_proof_count: usize,
    pub reduced_log_23_proof_count: usize,
    pub deprecated_final_proof_count: usize,
    pub delegation_proof_count: Vec<(u32, usize)>,
    pub register_values: Vec<FinalRegisterValue>,
    pub end_params: [u32; 8],
    pub prev_end_params_output_hash: Option<[u32; 8]>,
    pub prev_end_params_output: Option<[u32; 16]>,
}

/// The proofs of a program by the machine that they are about.
pub struct ProofList {
    pub basic_proofs: Vec<Proof>,
    pub reduced_proofs: Vec<Proof>,
    pub reduced_log_23_proofs: Vec<Proof>,
    pub delegation_proofs: Vec<(u32, Vec<Proof>)>,
}

/// What delegation proofs consist of, by their type.
pub open spec fn delegation_models(proofs: Map<u32, Vec<Proof>>) -> Map<u32, Seq<ProofModel>> {
    Map::new(
        |t: u32| proofs.contains_key(t),
        |t: u32| circuit_proof::models(proofs[t]@),
    )
}

/// What a list of delegation proofs consists of; of two entries of one type the later counts.
pub open spec fn listed_models(list: Seq<(u32, Vec<Proof>)>) -> Map<u32, Seq<ProofModel>>
    decreases list.len(),
{
    if list.len() == 0 {
        Map::empty()
    } else {
        listed_models(list.drop_last()).insert(
            list.last().0,
            circuit_proof::models(list.last().1@),
        )
    }
}

/// The words of proofs one after the other.
pub open spec fn proofs_words(proofs: Seq<ProofModel>, shuffle_ram: bool) -> Seq<u32>
    decreases proofs.len(),
{
    if proofs.len() == 0 {
        seq![]
    } else {
        proofs_words(proofs.drop_last(), shuffle_ram) + proofs.last().full_words(shuffle_ram)
    }
}

/// The words of the delegation proofs of one type: how many there are, and the proofs.
pub open spec fn type_words(proofs: Map<u32, Seq<ProofModel>>, t: u32) -> Seq<u32> {
    if proofs.contains_key(t) {
        seq![proofs[t].len() as u32] + proofs_words(proofs[t], false)
    } else {
        seq![0u32]
    }
}

/// The words of the delegation proofs of some types in turn.
pub open spec fn types_words(proofs: Map<u32, Seq<ProofModel>>, types: Seq<u32>) -> Seq<u32>
    decreases types.len(),
{
    if types.len() == 0 {
        seq![]
    } else {
        types_words(proofs, types.drop_last()) + type_words(proofs, types.last())
    }
}

/// Appends the words of proofs.
pub fn append_all_proofs(result: &mut Vec<u32>, proofs: &Vec<Proof>, shuffle_ram: bool)
    ensures
        final(result)@ == old(result)@ + proofs_words(circuit_proof::models(proofs@), shuffle_ram),
{
    let ghost before = result@;
    let ghost all = circuit_proof::models(proofs@);
    let mut i: usize = 0;
    assert(before + proofs_words(all.take(0), shuffle_ram) =~= before);
    while i < proofs.len()
        invariant
            i <= proofs@.len(),
            all == circuit_proof::models(proofs@),
            result@ == before + proofs_words(all.take(i as int), shuffle_ram),
        decreases proofs@.len() - i,
    {
        proofs[i].append_full(result, shuffle_ram);
        proof {
            let part = all.take(i as int);
            assert(all.take(i + 1).drop_last() =~= part);
            assert(before + proofs_words(part, shuffle_ram) + all[i as int].full_words(shuffle_ram)
                =~= before + (proofs_words(part, shuffle_ram) + all[i as int].full_words(
                shuffle_ram,
            )));
        }
        i = i + 1;
    }
    assert(all.take(i as int) =~= all);
}

/// Whether a number is in a list.
fn lists_type(types: &[u32], t: u32) -> (r: bool)
    ensures
        r == types@.contains(t),
{
    let mut i: usize = 0;
    while i < types.len()
        invariant
            i <= types@.len(),
            forall|j: int| 0 <= j < i ==> types@[j] != t,
        decreases types@.len() - i,
    {
        if types[i] == t {
            return true;
        }
        i = i + 1;
    }
    false
}

impl ProgramProof {
    /// What the delegation proofs consist of.
    pub open spec fn delegations(self) -> Map<u32, Seq<ProofModel>> {
        delegation_models(self.delegation_proofs@)
    }

    /// The number of delegation proofs of a type.
    pub fn get_num_delegation_proofs_for_type(&self, delegation_type: u32) -> (r: u32)
        ensures
            r == (if self.delegations().contains_key(delegation_type) {
                self.delegations()[delegation_type].len() as u32
            } else {
                0u32
            }),
    {
        broadcast use vstd::std_specs::btree::group_btree_axioms;

        match self.delegation_proofs.get(&delegation_type) {
            Some(proofs) => proofs.len() as u32,
            None => 0,
        }
    }

    /// Whether all delegation proofs are of types from a list.
    pub fn has_only_types(&self, allowed: &[u32]) -> (r: bool)
        ensures
            r == (forall|t: u32| #[trigger]
                self.delegations().contains_key(t) ==> allowed@.contains(t)),
    {
        broadcast use vstd::std_specs::btree::group_btree_axioms;

        let ghost keys = vstd::std_specs::iter::IteratorSpec::remaining(
            &self.delegation_proofs.keys(),
        ).unref();
        for t in it: self.delegation_proofs.keys()
            invariant
                it.seq().unref() == keys,
                keys.to_set() == self.delegation_proofs@.dom(),
                forall|i: int| 0 <= i < it.index() ==> allowed@.contains(#[trigger] keys[i]),
        {
            assert(keys[it.index() as int] == *t);
            if !lists_type(allowed, *t) {
                assert(keys.contains(*t));
                assert(keys.to_set().contains(*t));
                assert(self.delegations().contains_key(*t));
                return false;
            }
        }
        assert forall|t: u32| #[trigger] self.delegations().contains_key(t) implies
            allowed@.contains(t) by {
            assert(keys.to_set().contains(t));
            let i = choose|i: int| 0 <= i < keys.len() && keys[i] == t;
            assert(allowed@.contains(keys[i]));
        }
        true
    }

    /// The words that a verifier reads of the program: the registers, the proofs of the main
    /// circuits, the delegation proofs of the allowed types in turn, and the preimage of the
    /// recursion chain.
    pub open spec fn flat_words(self, allowed: Seq<u32>, low_bits: int) -> Seq<u32> {
        transcript::registers_words(self.register_final_values@, low_bits)
            + seq![self.base_layer_proofs.len() as u32] + proofs_words(
            circuit_proof::models(self.base_layer_proofs@),
            true,
        ) + types_words(self.delegations(), allowed) + match self.recursion_chain_preimage {
            Some(preimage) => preimage@,
            None => Seq::<u32>::empty(),
        }
    }

    /// Flattens the proof for a verifier of the main circuits and of the circuits of the allowed
    /// delegation types.
    pub fn flatten_for_delegation_circuits_set(
        &self,
        allowed_delegation_circuits: &[u32],
        timestamp_low_bits: u32,
    ) -> (r: Vec<u32>)
        requires
            self.register_final_values@.len() == 32,
            timestamp_low_bits <= 32,
            forall|i: int|
                0 <= i < 32 ==> transcript::timestamp_fits(
                    (#[trigger] self.register_final_values@[i]).last_access_timestamp,
                    timestamp_low_bits as int,
                ),
            forall|t: u32| #[trigger]
                self.delegations().contains_key(t) ==> allowed_delegation_circuits@.contains(t),
        ensures
            r@ == self.flat_words(allowed_delegation_circuits@, timestamp_low_bits as int),
    {
        let mut responses: Vec<u32> = Vec::with_capacity(32 + 32 * 2);
        append_registers(
            &mut responses,
            self.register_final_values.as_slice(),
            timestamp_low_bits,
        );
        responses.push(self.base_layer_proofs.len() as u32);
        append_all_proofs(&mut responses, &self.base_layer_proofs, true);
        let ghost head = responses@;
        assert(head =~= transcript::registers_words(
            self.register_final_values@,
            timestamp_low_bits as int,
        ) + seq![self.base_layer_proofs.len() as u32] + proofs_words(
            circuit_proof::models(self.base_layer_proofs@),
            true,
        ));
        let ghost types = allowed_delegation_circuits@;
        let mut i: usize = 0;
        assert(head + types_words(self.delegations(), types.take(0)) =~= head);
        while i < allowed_delegation_circuits.len()
            invariant
                types == allowed_delegation_circuits@,
                i <= types.len(),
                responses@ == head + types_words(self.delegations(), types.take(i as int)),
            decreases types.len() - i,
        {
            self.append_type(&mut responses, allowed_delegation_circuits[i]);
            proof {
                let part = types.take(i as int);
                let added = type_words(self.delegations(), types[i as int]);
                assert(types.take(i + 1).drop_last() =~= part);
                assert(head + types_words(self.delegations(), part) + added =~= head + (types_words(
                    self.delegations(),
                    part,
                ) + added));
            }
            i = i + 1;
        }
        assert(types.take(i as int) =~= types);
        let ghost before = responses@;
        match &self.recursion_chain_preimage {
            Some(preimage) => {
                append_words(&mut responses, preimage.as_slice());
            },
            None => {
                assert(before + Seq::<u32>::empty() =~= before);
            },
        }
        responses
    }

    /// Appends the words of the delegation proofs of one type.
    fn append_type(&self, result: &mut Vec<u32>, delegation_type: u32)
        ensures
            final(result)@ == old(result)@ + type_words(self.delegations(), delegation_type),
    {
        broadcast use vstd::std_specs::btree::group_btree_axioms;

        let ghost before = result@;
        match self.delegation_proofs.get(&delegation_type) {
            Some(proofs) => {
                result.push(proofs.len() as u32);
                append_all_proofs(result, proofs, false);
                assert(result@ =~= before + type_words(self.delegations(), delegation_type));
            },
            None => {
                result.push(0);
                assert(result@ =~= before + seq![0u32]);
            },
        }
    }

    /// Whether `p` is made of a list of proofs and of metadata.
    pub open spec fn is_made_of(self, proof_list: ProofList, metadata: ProofMetadata) -> bool {
        &&& circuit_proof::models(self.base_layer_proofs@) == circuit_proof::models(
            proof_list.basic_proofs@,
        ) + circuit_proof::models(proof_list.reduced_log_23_proofs@) + circuit_proof::models(
            proof_list.reduced_proofs@,
        )
        &&& self.delegations() == listed_models(proof_list.delegation_proofs@)
        &&& self.register_final_values@ == metadata.register_values@
        &&& self.end_params == metadata.end_params
        &&& self.recursion_chain_preimage == metadata.prev_end_params_output
        &&& self.recursion_chain_hash == metadata.prev_end_params_output_hash
    }

    /// Joins the proofs of a list with its metadata. The proofs of the main circuits come in the
    /// order of the layers: basic, reduced with a domain of `2^23` rows, reduced.
    pub fn from_proof_list_and_metadata(
        proof_list: &ProofList,
        proof_metadata: &ProofMetadata,
    ) -> (r: ProgramProof)
        ensures
            r.is_made_of(*proof_list, *proof_metadata),
    {
        broadcast use vstd::std_specs::btree::group_btree_axioms;

        let mut base_layer_proofs: Vec<Proof> = Vec::new();
        assert(circuit_proof::models(base_layer_proofs@) =~= seq![]);
        append_proofs(&mut base_layer_proofs, &proof_list.basic_proofs);
        append_proofs(&mut base_layer_proofs, &proof_list.reduced_log_23_proofs);
        append_proofs(&mut base_layer_proofs, &proof_list.reduced_proofs);
        assert(circuit_proof::models(base_layer_proofs@) =~= circuit_proof::models(
            proof_list.basic_proofs@,
        ) + circuit_proof::models(proof_list.reduced_log_23_proofs@) + circuit_proof::models(
            proof_list.reduced_proofs@,
        ));
        let mut delegation_proofs: BTreeMap<u32, Vec<Proof>> = BTreeMap::new();
        let ghost list = proof_list.delegation_proofs@;
        let mut i: usize = 0;
        assert(delegation_models(delegation_proofs@) =~= listed_models(list.take(0)));
        while i < proof_list.delegation_proofs.len()
            invariant
                list == proof_list.delegation_proofs@,
                i <= list.len(),
                delegation_models(delegation_proofs@) == listed_models(list.take(i as int)),
            decreases list.len() - i,
        {
            broadcast use vstd::std_specs::btree::group_btree_axioms;

            let ghost before = delegation_proofs@;
            let entry = &proof_list.delegation_proofs[i];
            let mut copies: Vec<Proof> = Vec::new();
            assert(circuit_proof::models(copies@) =~= seq![]);
            append_proofs(&mut copies, &entry.1);
            assert(circuit_proof::models(copies@) =~= circuit_proof::models(entry.1@));
            delegation_proofs.insert(entry.0, copies);
            assert(list.take(i + 1).drop_last() =~= list.take(i as int));
            assert(delegation_models(delegation_proofs@) =~= delegation_models(before).insert(
                entry.0,
                circuit_proof::models(entry.1@),
            ));
            i = i + 1;
        }
        assert(list.take(i as int) =~= list);
        ProgramProof {
            base_layer_proofs,
            delegation_proofs,
            register_final_values: copy_registers(&proof_metadata.register_values),
            end_params: proof_metadata.end_params,
            recursion_chain_preimage: proof_metadata.prev_end_params_output,
            recursion_chain_hash: proof_metadata.prev_end_params_output_hash,
        }
    }
}

/// Whether the types of a list ascend.
pub open spec fn types_ascend(list: Seq<(u32, Vec<Proof>)>) -> bool {
    forall|i: int, j: int|
        0 <= i < j < list.len() ==> (#[trigger] list[i]).0 < (#[trigger] list[j]).0
}

/// Whether a list of proofs and metadata are what a proof is split into.
pub open spec fn is_split_of(p: ProgramProof, metadata: ProofMetadata, list: ProofList) -> bool {
    &&& list.basic_proofs@.len() == 0
    &&& list.reduced_log_23_proofs@.len() == 0
    &&& list.reduced_proofs@ == p.base_layer_proofs@
    &&& types_ascend(list.delegation_proofs@)
    &&& listed_models(list.delegation_proofs@) == p.delegations()
    &&& metadata.basic_proof_count == 0
    &&& metadata.reduced_proof_count == p.base_layer_proofs@.len()
    &&& metadata.reduced_log_23_proof_count == 0
    &&& metadata.deprecated_final_proof_count == 0
    &&& metadata.delegation_proof_count@ == Seq::new(
        list.delegation_proofs@.len(),
        |i: int| (list.delegation_proofs@[i].0, list.delegation_proofs@[i].1@.len() as usize),
    )
    &&& metadata.register_values@ == p.register_final_values@
    &&& metadata.end_params == p.end_params
    &&& metadata.prev_end_params_output_hash == p.recursion_chain_hash
    &&& metadata.prev_end_params_output == p.recursion_chain_preimage
}

/// The delegation proofs in the order of their types.
fn list_of(proofs: &BTreeMap<u32, Vec<Proof>>) -> (r: Vec<(u32, Vec<Proof>)>)
    ensures
        types_ascend(r@),
        listed_models(r@) == delegation_models(proofs@),
{
    broadcast use vstd::std_specs::btree::group_btree_axioms;

    let mut r: Vec<(u32, Vec<Proof>)> = Vec::new();
    let ghost entries = vstd::std_specs::iter::IteratorSpec::remaining(&proofs.iter());
    let ghost keys = entries.map_values(|kv: (&u32, &Vec<Proof>)| *kv.0);
    for entry in it: proofs.iter()
        invariant
            it.seq() == entries,
            keys == entries.map_values(|kv: (&u32, &Vec<Proof>)| *kv.0),
            r@.len() == it.index(),
            forall|i: int|
                0 <= i < it.index() ==> (#[trigger] r@[i]).0 == keys[i] && circuit_proof::models(
                    r@[i].1@,
                ) == circuit_proof::models(entries[i].1@),
    {
        let mut copies: Vec<Proof> = Vec::new();
        assert(circuit_proof::models(copies@) =~= seq![]);
        append_proofs(&mut copies, entry.1);
        assert(circuit_proof::models(copies@) =~= circuit_proof::models(entry.1@));
        r.push((*entry.0, copies));
    }
    assert forall|i: int, j: int| 0 <= i < j < r@.len() implies (#[trigger] r@[i]).0 < (
    #[trigger] r@[j]).0 by {
        assert(vstd::std_specs::btree::increasing_seq(keys));
        assert(vstd::std_specs::cmp::OrdSpec::cmp_spec(&keys[i], &keys[j]) is Less);
    }
    proof {
        lemma_listed_models(r@);
        let listed = listed_models(r@);
        let models = delegation_models(proofs@);
        assert forall|t: u32| listed.contains_key(t) == models.contains_key(t) by {
            if models.contains_key(t) {
                let i = choose|i: int|
                    0 <= i < entries.len() && entries[i] == (&t, &proofs@[t]);
                assert(entries.contains((&t, &proofs@[t])));
                assert(r@[i].0 == t);
            }
            if listed.contains_key(t) {
                let i = choose|i: int| 0 <= i < r@.len() && (#[trigger] r@[i]).0 == t;
                assert(proofs@.contains_key(*entries[i].0));
            }
        }
        assert forall|t: u32| listed.contains_key(t) implies #[trigger] listed[t] == models[t] by {
            let i = choose|i: int| 0 <= i < r@.len() && (#[trigger] r@[i]).0 == t;
            assert(proofs@[*entries[i].0] == *entries[i].1);
        }
        assert(listed =~= models);
    }
    r
}

/// How many proofs of each type a list holds.
pub fn count_by_type(list: &Vec<(u32, Vec<Proof>)>) -> (r: Vec<(u32, usize)>)
    ensures
        r@ == Seq::new(list@.len(), |i: int| (list@[i].0, list@[i].1@.len() as usize)),
{
    let mut r: Vec<(u32, usize)> = Vec::new();
    let mut i: usize = 0;
    while i < list.len()
        invariant
            i <= list@.len(),
            r@.len() == i,
            forall|j: int|
                0 <= j < i ==> #[trigger] r@[j] == (list@[j].0, list@[j].1@.len() as usize),
        decreases list@.len() - i,
    {
        let entry = &list[i];
        r.push((entry.0, entry.1.len()));
        i = i + 1;
    }
    r
}

/// In a list of ascending types every entry counts.
proof fn lemma_listed_models(list: Seq<(u32, Vec<Proof>)>)
    requires
        types_ascend(list),
    ensures
        forall|t: u32| #[trigger]
            listed_models(list).contains_key(t) <==> exists|i: int|
                0 <= i < list.len() && (#[trigger] list[i]).0 == t,
        forall|i: int|
            0 <= i < list.len() ==> listed_models(list)[(#[trigger] list[i]).0]
                == circuit_proof::models(list[i].1@),
    decreases list.len(),
{
    if list.len() > 0 {
        let fewer = list.drop_last();
        lemma_listed_models(fewer);
        assert forall|t: u32| #[trigger]
            listed_models(list).contains_key(t) <==> exists|i: int|
                0 <= i < list.len() && (#[trigger] list[i]).0 == t by {
            if listed_models(fewer).contains_key(t) {
                let i = choose|i: int| 0 <= i < fewer.len() && (#[trigger] fewer[i]).0 == t;
                assert(list[i].0 == t);
            }
            if exists|i: int| 0 <= i < list.len() && (#[trigger] list[i]).0 == t {
                let i = choose|i: int| 0 <= i < list.len() && (#[trigger] list[i]).0 == t;
                if i < fewer.len() {
                    assert(fewer[i].0 == t);
                }
            }
            assert(list[list.len() - 1].0 == list.last().0);
        }
        assert forall|i: int| 0 <= i < list.len() implies listed_models(list)[(
        #[trigger] list[i]).0] == circuit_proof::models(list[i].1@) by {
            if i < fewer.len() {
                assert(fewer[i] == list[i]);
                assert(list[i].0 < list[list.len() - 1].0);
            }
        }
    }
}

impl ProgramProof {
    /// Splits the proof into a list and metadata. All proofs of main circuits are listed as proofs
    /// of the reduced machine, and the metadata counts the proofs of every delegation type in the
    /// order of the list.
    pub fn to_metadata_and_proof_list(self) -> (r: (ProofMetadata, ProofList))
        ensures
            is_split_of(self, r.0, r.1),
    {
        let reduced_proof_count: usize = self.base_layer_proofs.len();
        let delegation_proofs = list_of(&self.delegation_proofs);
        let delegation_proof_count = count_by_type(&delegation_proofs);
        let proof_list = ProofList {
            basic_proofs: Vec::new(),
            reduced_proofs: self.base_layer_proofs,
            reduced_log_23_proofs: Vec::new(),
            delegation_proofs,
        };
        let proof_metadata = ProofMetadata {
            basic_proof_count: 0,
            reduced_proof_count,
            reduced_log_23_proof_count: 0,
            deprecated_final_proof_count: 0,
            delegation_proof_count,
            register_values: self.register_final_values,
            end_params: self.end_params,
            prev_end_params_output_hash: self.recursion_chain_hash,
            prev_end_params_output: self.recursion_chain_preimage,
        };
        (proof_metadata, proof_list)
    }
}

/// The sum of counts.
pub open spec fn sum_of(counts: Seq<(u32, usize)>) -> int
    decreases counts.len(),
{
    if counts.len() == 0 {
        0
    } else {
        sum_of(counts.drop_last()) + counts.last().1
    }
}

proof fn lemma_sum_grows(counts: Seq<(u32, usize)>, n: int)
    requires
        0 <= n <= counts.len(),
    ensures
        0 <= sum_of(counts.take(n)) <= sum_of(counts),
    decreases counts.len(),
{
    if n == counts.len() {
        assert(counts.take(n) =~= counts);
        if n > 0 {
            lemma_sum_grows(counts.drop_last(), n - 1);
            assert(counts.drop_last().take(n - 1) =~= counts.drop_last());
        }
    } else {
        lemma_sum_grows(counts.drop_last(), n);
        assert(counts.drop_last().take(n) =~= counts.take(n));
    }
}

impl ProofMetadata {
    /// The number of all proofs; those under the deprecated name do not count.
    pub open spec fn total(self) -> int {
        self.basic_proof_count + self.reduced_proof_count + self.reduced_log_23_proof_count
            + sum_of(self.delegation_proof_count@)
    }

    /// The number of all proofs.
    pub fn total_proofs(&self) -> (r: usize)
        requires
            self.total() <= usize::MAX,
        ensures
            r == self.total(),
    {
        let ghost counts = self.delegation_proof_count@;
        proof {
            lemma_sum_grows(counts, 0);
        }
        let mut total: usize = self.basic_proof_count + self.reduced_proof_count
            + self.reduced_log_23_proof_count;
        let ghost main = total;
        let mut i: usize = 0;
        while i < self.delegation_proof_count.len()
            invariant
                counts == self.delegation_proof_count@,
                i <= counts.len(),
                main + sum_of(counts) == self.total() <= usize::MAX,
                total == main + sum_of(counts.take(i as int)),
            decreases counts.len() - i,
        {
            proof {
                lemma_sum_grows(counts, i + 1);
                assert(counts.take(i + 1).drop_last() =~= counts.take(i as int));
            }
            total = total + self.delegation_proof_count[i].1;
            i = i + 1;
        }
        assert(counts.take(i as int) =~= counts);
        total
    }

    /// What the next layer of a recursion has to know of this one.
    pub fn create_prev_metadata(&self) -> (r: ([u32; 8], Option<[u32; 16]>))
        ensures
            r == (self.end_params, self.prev_end_params_output),
    {
        (self.end_params, self.prev_end_params_output)
    }
}

impl ProofList {
    /// The proofs among which the last is looked for: the basic ones, if there are none the
    /// reduced ones with a domain of `2^23` rows, if there are none the reduced ones.
    pub open spec fn last_layer(self) -> Seq<Proof> {
        if self.basic_proofs@.len() > 0 {
            self.basic_proofs@
        } else if self.reduced_log_23_proofs@.len() > 0 {
            self.reduced_log_23_proofs@
        } else {
            self.reduced_proofs@
        }
    }

    /// The last proof of a main circuit.
    pub fn get_last_proof(&self) -> (r: &Proof)
        requires
            self.last_layer().len() > 0,
        ensures
            *r == self.last_layer().last(),
    {
        if self.basic_proofs.len() > 0 {
            &self.basic_proofs[self.basic_proofs.len() - 1]
        } else if self.reduced_log_23_proofs.len() > 0 {
            &self.reduced_log_23_proofs[self.reduced_log_23_proofs.len() - 1]
        } else {
            &self.reduced_proofs[self.reduced_proofs.len() - 1]
        }
    }
}

/// What is put together from the parts of a proof is that proof again.
pub proof fn law_split_and_join(
    p: ProgramProof,
    metadata: ProofMetadata,
    list: ProofList,
    joined: ProgramProof,
)
    requires
        is_split_of(p, metadata, list),
        joined.is_made_of(list, metadata),
    ensures
        circuit_proof::models(joined.base_layer_proofs@) == circuit_proof::models(
            p.base_layer_proofs@,
        ),
        joined.delegations() == p.delegations(),
        joined.register_final_values@ == p.register_final_values@,
        joined.end_params == p.end_params,
        joined.recursion_chain_preimage == p.recursion_chain_preimage,
        joined.recursion_chain_hash == p.recursion_chain_hash,
{
    assert(circuit_proof::models(list.basic_proofs@) =~= seq![]);
    assert(circuit_proof::models(list.reduced_log_23_proofs@) =~= seq![]);
    assert(circuit_proof::models(joined.base_layer_proofs@) =~= circuit_proof::models(
        p.base_layer_proofs@,
    ));
}

/// Splitting and joining a proof leaves the words that a verifier reads unchanged.
pub proof fn law_split_and_join_keep_words(
    p: ProgramProof,
    metadata: ProofMetadata,
    list: ProofList,
    joined: ProgramProof,
    allowed: Seq<u32>,
    low_bits: int,
)
    requires
        is_split_of(p, metadata, list),
        joined.is_made_of(list, metadata),
    ensures
        joined.flat_words(allowed, low_bits) == p.flat_words(allowed, low_bits),
{
    law_split_and_join(p, metadata, list, joined);
    assert(circuit_proof::models(joined.base_layer_proofs@).len() == circuit_proof::models(
        p.base_layer_proofs@,
    ).len());
}

/// A copy of the values of registers.
fn copy_registers(registers: &Vec<FinalRegisterValue>) -> (r: Vec<FinalRegisterValue>)
    ensures
        r@ == registers@,
{
    let mut r: Vec<FinalRegisterValue> = Vec::new();
    let mut i: usize = 0;
    while i < registers.len()
        invariant
            i <= registers@.len(),
            r@ == registers@.take(i as int),
        decreases registers@.len() - i,
    {
        r.push(registers[i]);
        assert(r@ =~= registers@.take(i + 1));
        i = i + 1;
    }
    assert(registers@.take(i as int) =~= registers@);
    r
}

/// The words of a list of proofs are those of its proofs in the order of the list: one proof alone
/// gives its words, and what follows it adds its words behind.
pub proof fn law_words_of_proofs(
    first: Seq<ProofModel>,
    p: ProofModel,
    second: Seq<ProofModel>,
    shuffle_ram: bool,
)
    ensures
        proofs_words(Seq::empty(), shuffle_ram) == Seq::<u32>::empty(),
        proofs_words(seq![p], shuffle_ram) == p.full_words(shuffle_ram),
        proofs_words(first + second, shuffle_ram) == proofs_words(first, shuffle_ram)
            + proofs_words(second, shuffle_ram),
    decreases second.len(),
{
    let alone = seq![p];
    assert(alone.drop_last() =~= Seq::<ProofModel>::empty());
    assert(proofs_words(alone.drop_last(), shuffle_ram) == Seq::<u32>::empty());
    assert(proofs_words(alone, shuffle_ram) =~= p.full_words(shuffle_ram));
    if second.len() == 0 {
        assert(first + second =~= first);
        assert(proofs_words(first + second, shuffle_ram) =~= proofs_words(first, shuffle_ram)
            + proofs_words(second, shuffle_ram));
    } else {
        law_words_of_proofs(first, p, second.drop_last(), shuffle_ram);
        assert((first + second).drop_last() =~= first + second.drop_last());
        assert((first + second).last() == second.last());
        assert(proofs_words(first + second, shuffle_ram) =~= proofs_words(first, shuffle_ram)
            + proofs_words(second, shuffle_ram));
    }
}

/// The words of the delegation proofs of some types are those of each type in turn: their number,
/// and the words of the proofs, for circuits that leave the memory alone; zero where there are none.
pub proof fn law_words_of_types(
    proofs: Map<u32, Seq<ProofModel>>,
    first: Seq<u32>,
    t: u32,
    second: Seq<u32>,
)
    ensures
        types_words(proofs, Seq::empty()) == Seq::<u32>::empty(),
        !proofs.contains_key(t) ==> types_words(proofs, seq![t]) == seq![0u32],
        proofs.contains_key(t) ==> {
            let words = types_words(proofs, seq![t]);
            &&& words.len() > 0
            &&& words[0] == proofs[t].len() as u32
            &&& words.skip(1) == proofs_words(proofs[t], false)
        },
        types_words(proofs, first + second) == types_words(proofs, first) + types_words(
            proofs,
            second,
        ),
    decreases second.len(),
{
    let alone = seq![t];
    assert(alone.drop_last() =~= Seq::<u32>::empty());
    assert(types_words(proofs, alone.drop_last()) == Seq::<u32>::empty());
    assert(types_words(proofs, alone) =~= type_words(proofs, t));
    if proofs.contains_key(t) {
        assert(types_words(proofs, alone).skip(1) =~= proofs_words(proofs[t], false));
    }
    if second.len() == 0 {
        assert(first + second =~= first);
        assert(types_words(proofs, first + second) =~= types_words(proofs, first) + types_words(
            proofs,
            second,
        ));
    } else {
        law_words_of_types(proofs, first, t, second.drop_last());
        assert((first + second).drop_last() =~= first + second.drop_last());
        assert((first + second).last() == second.last());
        assert(types_words(proofs, first + second) =~= types_words(proofs, first) + types_words(
            proofs,
            second,
        ));
    }
}

/// What a verifier reads of a program, part by part: three words of each register, the number of the
/// proofs of main circuits, the words of those proofs, for circuits that initialize and tear down
/// memory, the words of the allowed delegation types, and at the end the preimage of the recursion
/// chain, if there is one.
pub proof fn law_parts_of_flat_words(p: ProgramProof, allowed: Seq<u32>, low_bits: int)
    ensures
        ({
            let words = p.flat_words(allowed, low_bits);
            let a = 3 * p.register_final_values@.len();
            let main = proofs_words(circuit_proof::models(p.base_layer_proofs@), true);
            let types = types_words(p.delegations(), allowed);
            let b = a + 1 + main.len();
            let c = b + types.len();
            &&& words.len() == match p.recursion_chain_preimage {
                Some(_) => c + 16,
                None => c,
            }
            &&& words.take(a as int) == transcript::registers_words(
                p.register_final_values@,
                low_bits,
            )
            &&& words[a as int] == p.base_layer_proofs@.len() as u32
            &&& words.subrange(a as int + 1, b as int) == main
            &&& words.subrange(b as int, c as int) == types
            &&& p.recursion_chain_preimage matches Some(preimage) ==> words.skip(c as int)
                == preimage@
        }),
{
    let words = p.flat_words(allowed, low_bits);
    let a = 3 * p.register_final_values@.len();
    let main = proofs_words(circuit_proof::models(p.base_layer_proofs@), true);
    let types = types_words(p.delegations(), allowed);
    let b = a + 1 + main.len();
    let c = b + types.len();
    transcript::law_registers_fill_blocks(p.register_final_values@, low_bits);
    assert(words.take(a as int) =~= transcript::registers_words(
        p.register_final_values@,
        low_bits,
    ));
    assert(words.subrange(a as int + 1, b as int) =~= main);
    assert(words.subrange(b as int, c as int) =~= types);
    match p.recursion_chain_preimage {
        Some(preimage) => {
            assert(words.skip(c as int) =~= preimage@);
        },
        None => {},
    }
}

/// A program that is put together has the proofs of the three layers in the order basic, reduced
/// with a domain of `2^23` rows, reduced, and within each layer in the order of the list. Under each
/// delegation type it has the proofs of the last entry of that type.
pub proof fn law_joined_proofs_keep_their_order(
    p: ProgramProof,
    list: ProofList,
    metadata: ProofMetadata,
    i: int,
    t: u32,
)
    requires
        p.is_made_of(list, metadata),
    ensures
        ({
            let a = list.basic_proofs@;
            let b = list.reduced_log_23_proofs@;
            let c = list.reduced_proofs@;
            let all = p.base_layer_proofs@;
            &&& all.len() == a.len() + b.len() + c.len()
            &&& 0 <= i < a.len() ==> all[i]@ == a[i]@
            &&& 0 <= i < b.len() ==> all[a.len() + i]@ == b[i]@
            &&& 0 <= i < c.len() ==> all[a.len() + b.len() + i]@ == c[i]@
        }),
        0 <= i < list.delegation_proofs@.len() && (forall|j: int|
            i < j < list.delegation_proofs@.len() ==> (#[trigger] list.delegation_proofs@[j]).0
                != list.delegation_proofs@[i].0) ==> {
            let entry = list.delegation_proofs@[i];
            &&& p.delegation_proofs@.contains_key(entry.0)
            &&& p.delegation_proofs@[entry.0]@.len() == entry.1@.len()
            &&& forall|k: int|
                0 <= k < entry.1@.len() ==> (#[trigger] p.delegation_proofs@[entry.0]@[k])@
                    == entry.1@[k]@
        },
        (forall|j: int|
            0 <= j < list.delegation_proofs@.len() ==> (#[trigger] list.delegation_proofs@[j]).0
                != t) ==> !p.delegation_proofs@.contains_key(t),
        p.register_final_values@ == metadata.register_values@,
        p.end_params == metadata.end_params,
        p.recursion_chain_preimage == metadata.prev_end_params_output,
        p.recursion_chain_hash == metadata.prev_end_params_output_hash,
{
    let a = list.basic_proofs@;
    let b = list.reduced_log_23_proofs@;
    let c = list.reduced_proofs@;
    let all = circuit_proof::models(p.base_layer_proofs@);
    assert(all.len() == p.base_layer_proofs@.len());
    if 0 <= i < a.len() {
        assert(all[i] == circuit_proof::models(a)[i]);
    }
    if 0 <= i < b.len() {
        assert(all[a.len() + i] == circuit_proof::models(b)[i]);
    }
    if 0 <= i < c.len() {
        assert(all[a.len() + b.len() + i] == circuit_proof::models(c)[i]);
    }
    let entries = list.delegation_proofs@;
    if 0 <= i < entries.len() && (forall|j: int|
        i < j < entries.len() ==> (#[trigger] entries[j]).0 != entries[i].0) {
        lemma_last_entry_counts(entries, i);
        let entry = entries[i];
        assert(p.delegations()[entry.0] == circuit_proof::models(entry.1@));
        assert forall|k: int| 0 <= k < entry.1@.len() implies (
        #[trigger] p.delegation_proofs@[entry.0]@[k])@ == entry.1@[k]@ by {
            assert(circuit_proof::models(p.delegation_proofs@[entry.0]@)[k] == circuit_proof::models(
                entry.1@,
            )[k]);
        }
        assert(circuit_proof::models(p.delegation_proofs@[entry.0]@).len()
            == circuit_proof::models(entry.1@).len());
    }
    if forall|j: int| 0 <= j < entries.len() ==> (#[trigger] entries[j]).0 != t {
        lemma_no_entry(entries, t);
        assert(!p.delegations().contains_key(t));
    }
}

proof fn lemma_last_entry_counts(list: Seq<(u32, Vec<Proof>)>, i: int)
    requires
        0 <= i < list.len(),
        forall|j: int| i < j < list.len() ==> (#[trigger] list[j]).0 != list[i].0,
    ensures
        listed_models(list).contains_key(list[i].0),
        listed_models(list)[list[i].0] == circuit_proof::models(list[i].1@),
    decreases list.len(),
{
    if i < list.len() - 1 {
        let fewer = list.drop_last();
        assert forall|j: int| i < j < fewer.len() implies (#[trigger] fewer[j]).0 != fewer[i].0 by {
            assert(list[j].0 != list[i].0);
        }
        lemma_last_entry_counts(fewer, i);
        assert(list[list.len() - 1].0 != list[i].0);
    }
}

proof fn lemma_no_entry(list: Seq<(u32, Vec<Proof>)>, t: u32)
    requires
        forall|j: int| 0 <= j < list.len() ==> (#[trigger] list[j]).0 != t,
    ensures
        !listed_models(list).contains_key(t),
    decreases list.len(),
{
    if list.len() > 0 {
        let fewer = list.drop_last();
        assert forall|j: int| 0 <= j < fewer.len() implies (#[trigger] fewer[j]).0 != t by {
            assert(list[j].0 != t);
        }
        lemma_no_entry(fewer, t);
        assert(list[list.len() - 1].0 != t);
    }
}

/// A program that is split keeps its proofs of main circuits as those of the reduced machine, and
/// its delegation proofs in the order of their types, each type once; the metadata counts them.
pub proof fn law_split_keeps_every_proof(
    p: ProgramProof,
    metadata: ProofMetadata,
    list: ProofList,
    i: int,
    j: int,
)
    requires
        is_split_of(p, metadata, list),
        0 <= i < list.delegation_proofs@.len(),
    ensures
        list.basic_proofs@.len() == 0,
        list.reduced_log_23_proofs@.len() == 0,
        list.reduced_proofs@ == p.base_layer_proofs@,
        i < j < list.delegation_proofs@.len() ==> list.delegation_proofs@[i].0
            < list.delegation_proofs@[j].0,
        ({
            let entry = list.delegation_proofs@[i];
            &&& p.delegation_proofs@.contains_key(entry.0)
            &&& p.delegation_proofs@[entry.0]@.len() == entry.1@.len()
            &&& 0 <= j < entry.1@.len() ==> p.delegation_proofs@[entry.0]@[j]@ == entry.1@[j]@
            &&& metadata.delegation_proof_count@.len() == list.delegation_proofs@.len()
            &&& metadata.delegation_proof_count@[i] == (entry.0, entry.1@.len() as usize)
        }),
        forall|t: u32| #[trigger]
            p.delegation_proofs@.contains_key(t) ==> exists|k: int|
                0 <= k < list.delegation_proofs@.len() && (#[trigger] list.delegation_proofs@[k]).0
                    == t,
        metadata.basic_proof_count == 0,
        metadata.reduced_log_23_proof_count == 0,
        metadata.deprecated_final_proof_count == 0,
        metadata.reduced_proof_count == p.base_layer_proofs@.len(),
        metadata.register_values@ == p.register_final_values@,
        metadata.end_params == p.end_params,
        metadata.prev_end_params_output == p.recursion_chain_preimage,
        metadata.prev_end_params_output_hash == p.recursion_chain_hash,
{
    let entries = list.delegation_proofs@;
    lemma_listed_models(entries);
    let entry = entries[i];
    assert(listed_models(entries).contains_key(entry.0));
    assert(p.delegations().contains_key(entry.0));
    let ours = circuit_proof::models(p.delegation_proofs@[entry.0]@);
    let theirs = circuit_proof::models(entry.1@);
    assert(ours == theirs);
    assert(ours.len() == theirs.len());
    if 0 <= j < entry.1@.len() {
        assert(ours[j] == theirs[j]);
    }
    assert forall|t: u32| #[trigger] p.delegation_proofs@.contains_key(t) implies exists|k: int|
        0 <= k < entries.len() && (#[trigger] entries[k]).0 == t by {
        assert(p.delegations().contains_key(t));
        assert(listed_models(entries).contains_key(t));
    }
}

/// The number of all proofs: each count adds to it once.
pub proof fn law_total_counts_every_proof(
    counts: Seq<(u32, usize)>,
    more: Seq<(u32, usize)>,
    entry: (u32, usize),
    metadata: ProofMetadata,
)
    ensures
        sum_of(Seq::empty()) == 0,
        sum_of(seq![entry]) == entry.1,
        sum_of(counts + more) == sum_of(counts) + sum_of(more),
        metadata.total() - sum_of(metadata.delegation_proof_count@) == metadata.basic_proof_count
            + metadata.reduced_proof_count + metadata.reduced_log_23_proof_count,
    decreases more.len(),
{
    let alone = seq![entry];
    assert(alone.drop_last() =~= Seq::<(u32, usize)>::empty());
    assert(sum_of(alone.drop_last()) == 0);
    if more.len() == 0 {
        assert(counts + more =~= counts);
    } else {
        law_total_counts_every_proof(counts, more.drop_last(), entry, metadata);
        assert((counts + more).drop_last() =~= counts + more.drop_last());
        assert((counts + more).last() == more.last());
    }
}

/// The last proof is looked for in the first layer that has one: basic, reduced with a domain of
/// `2^23` rows, reduced.
pub proof fn law_last_layer(list: ProofList)
    ensures
        list.basic_proofs@.len() > 0 ==> list.last_layer() == list.basic_proofs@,
        list.basic_proofs@.len() == 0 && list.reduced_log_23_proofs@.len() > 0 ==> list.last_layer()
            == list.reduced_log_23_proofs@,
        list.basic_proofs@.len() == 0 && list.reduced_log_23_proofs@.len() == 0
            ==> list.last_layer() == list.reduced_proofs@,
{
}

} // verus!
