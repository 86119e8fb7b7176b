//! What the verification and the flattening of proofs start from.
use crate::proofs::circuit_proof;
use crate::proofs::circuit_proof::Proof;
use crate::proofs::files;
use crate::proofs::files::ProofFile;
use crate::proofs::program;
use crate::proofs::program::{ProgramProof, ProofList, ProofMetadata};
use crate::simulator::config::BLAKE2_ROUND_FUNCTION_WITH_EXTENDED_CONTROL_ACCESS_ID;
use crate::text;
use crate::text::{chars_of, hex_string};
use crate::trace::transcript::MerkleTreeCapVarLength;
use vstd::prelude::*;

verus! {

/// The circuit that a proof is about.
#[derive(Clone, Copy, Debug, PartialEq, Eq)]
pub enum CircuitType {
    RiscV,
    RiscVReduced,
    DelegatedExtendedBlake,
}

/// The circuit that the name of the file of a proof speaks of.
pub open spec fn circuit_type_of(file_name: Seq<char>) -> Option<CircuitType> {
    if "delegation_proof_1991_"@.is_prefix_of(file_name) {
        Some(CircuitType::DelegatedExtendedBlake)
    } else if "proof_"@.is_prefix_of(file_name) {
        Some(CircuitType::RiscV)
    } else if "reduced_proof_"@.is_prefix_of(file_name) {
        Some(CircuitType::RiscVReduced)
    } else {
        None
    }
}

/// Decides whether a text begins with another.
fn starts_with(text: &str, prefix: &str) -> (r: bool)
    ensures
        r == prefix@.is_prefix_of(text@),
{
    let chars: Vec<char> = chars_of(text);
    let start: Vec<char> = chars_of(prefix);
    if start.len() > chars.len() {
        return false;
    }
    let mut i: usize = 0;
    while i < start.len()
        invariant
            chars@ == text@,
            start@ == prefix@,
            i <= start@.len() <= chars@.len(),
            forall|j: int| 0 <= j < i ==> start@[j] == chars@[j],
        decreases start@.len() - i,
    {
        if start[i] != chars[i] {
            assert(text@.subrange(0, start@.len() as int)[i as int] != prefix@[i as int]);
            return false;
        }
        i = i + 1;
    }
    assert(text@.subrange(0, start@.len() as int) =~= prefix@);
    true
}

/// The circuit that the name of the file of a proof speaks of, if any.
pub fn try_proof_name_to_circuit_type(file_name: &str) -> (r: Option<CircuitType>)
    ensures
        r == circuit_type_of(file_name@),
{
    if starts_with(file_name, "delegation_proof_1991_") {
        Some(CircuitType::DelegatedExtendedBlake)
    } else if starts_with(file_name, "proof_") {
        Some(CircuitType::RiscV)
    } else if starts_with(file_name, "reduced_proof_") {
        Some(CircuitType::RiscVReduced)
    } else {
        None
    }
}

/// The circuit that the name of the file of a proof speaks of.
pub fn proof_name_to_circuit_type(file_name: &str) -> (r: CircuitType)
    requires
        circuit_type_of(file_name@) is Some,
    ensures
        Some(r) == circuit_type_of(file_name@),
{
    match try_proof_name_to_circuit_type(file_name) {
        Some(circuit_type) => circuit_type,
        None => CircuitType::RiscV,
    }
}

/// The files of basic and of reduced proofs, and those of the hash delegation, have names that
/// speak of their circuits; those of other proofs speak of none.
pub proof fn law_file_names_speak_of_circuits(file: ProofFile)
    ensures
        circuit_type_of(file.name()) == match file {
            ProofFile::Basic(_) => Some(CircuitType::RiscV),
            ProofFile::Reduced(_) => Some(CircuitType::RiscVReduced),
            ProofFile::ReducedLog23(_) => None,
            ProofFile::Delegation(t, _) => if t
                == BLAKE2_ROUND_FUNCTION_WITH_EXTENDED_CONTROL_ACCESS_ID {
                Some(CircuitType::DelegatedExtendedBlake)
            } else {
                None
            },
        },
{
    reveal_strlit("delegation_proof_1991_");
    reveal_strlit("proof_");
    reveal_strlit("reduced_proof_");
    reveal_strlit("reduced_log_23_proof_");
    reveal_strlit("delegation_proof_");
    let name = file.name();
    let blake = "delegation_proof_1991_"@;
    files::lemma_digits_only(file.number());
    assert(name[0] == file.prefix()[0]);
    if blake.is_prefix_of(name) {
        assert(name.subrange(0, 22)[0] == name[0]);
    }
    if "proof_"@.is_prefix_of(name) {
        assert(name.subrange(0, 6)[0] == name[0]);
    }
    if "reduced_proof_"@.is_prefix_of(name) {
        assert(name.subrange(0, 14)[0] == name[0]);
        assert(name.subrange(0, 14)[8] == name[8]);
    }
    match file {
        ProofFile::Basic(_) => {
            assert(name.subrange(0, 6) =~= "proof_"@);
        },
        ProofFile::Reduced(_) => {
            assert(name.subrange(0, 14) =~= "reduced_proof_"@);
        },
        ProofFile::ReducedLog23(_) => {
            assert(name[8] == file.prefix()[8]);
        },
        ProofFile::Delegation(t, _) => {
            lemma_1991();
            let kind = text::decimal(t as nat);
            let rest = text::decimal(file.number()) + ".json"@;
            let blake_kind = seq!['1', '9', '9', '1'];
            files::lemma_digits_only(t as nat);
            assert(kind.push('_') + rest =~= name.skip(17));
            if blake.is_prefix_of(name) {
                assert(name.subrange(0, 22) == blake);
                assert forall|i: int| 0 <= i < 22 implies name[i] == blake[i] by {
                    assert(name.subrange(0, 22)[i] == name[i]);
                }
                assert(blake_kind.push('_') + name.skip(22) =~= name.skip(17));
                files::lemma_separated(kind, rest, blake_kind, name.skip(22), '_');
                text::law_decimal_is_injective(t as nat, 1991);
            }
            if t == BLAKE2_ROUND_FUNCTION_WITH_EXTENDED_CONTROL_ACCESS_ID {
                assert(file.prefix() =~= blake);
                assert(name.subrange(0, 22) =~= blake);
            }
        },
    }
}

proof fn lemma_1991()
    ensures
        text::decimal(1991) == seq!['1', '9', '9', '1'],
{
    reveal_with_fuel(text::decimal, 4);
    assert(text::decimal(1991) =~= seq!['1', '9', '9', '1']);
}

/// Whether the circuit initializes and tears down memory.
pub open spec fn has_shuffle_ram(circuit_type: CircuitType) -> bool {
    match circuit_type {
        CircuitType::RiscV => true,
        CircuitType::RiscVReduced => true,
        CircuitType::DelegatedExtendedBlake => false,
    }
}

/// Decides whether the circuit initializes and tears down memory.
pub fn shuffle_ram_inits_and_teardowns(circuit_type: CircuitType) -> (r: bool)
    ensures
        r == has_shuffle_ram(circuit_type),
{
    match circuit_type {
        CircuitType::RiscV => true,
        CircuitType::RiscVReduced => true,
        CircuitType::DelegatedExtendedBlake => false,
    }
}

/// What the verifier of a proof needs: the circuit, and the words that it reads.
pub struct VerifierInput {
    pub circuit_type: CircuitType,
    pub oracle_data: Vec<u32>,
}

/// Prepares the verification of a proof from a file; `None` if the name of the file does not speak
/// of a circuit.
pub fn verifier_input(file_name: &str, proof_read: &Proof) -> (r: Option<VerifierInput>)
    ensures
        match circuit_type_of(file_name@) {
            None => r is None,
            Some(circuit_type) => {
                &&& r is Some
                &&& r->0.circuit_type == circuit_type
                &&& r->0.oracle_data@ == proof_read@.full_words(has_shuffle_ram(circuit_type))
            },
        },
{
    match try_proof_name_to_circuit_type(file_name) {
        None => None,
        Some(circuit_type) => {
            let oracle_data = proof_read.flatten_full_proof(
                shuffle_ram_inits_and_teardowns(circuit_type),
            );
            Some(VerifierInput { circuit_type, oracle_data })
        },
    }
}

/// The block that the digest is hashed as: its eight words, and eight zeros.
pub open spec fn digest_block(digest: Seq<u32>) -> Seq<u32> {
    digest + Seq::new(8, |i: int| 0u32)
}

/// The digests of the tops of trees one after the other.
pub open spec fn all_digests(caps: Seq<MerkleTreeCapVarLength>) -> Seq<[u32; 8]>
    decreases caps.len(),
{
    if caps.len() == 0 {
        seq![]
    } else {
        all_digests(caps.drop_last()) + caps.last().cap@
    }
}

/// A digest as a block.
fn block_of(digest: &[u32; 8]) -> (r: [u32; 16])
    ensures
        r@ == digest_block(digest@),
{
    let mut block: [u32; 16] = [0u32;16];
    let mut i: usize = 0;
    while i < 8
        invariant
            i <= 8,
            forall|j: int| 0 <= j < i ==> block@[j] == digest@[j],
            forall|j: int| i <= j < 16 ==> block@[j] == 0u32,
        decreases 8 - i,
    {
        block[i] = digest[i];
        i = i + 1;
    }
    assert(block@ =~= digest_block(digest@));
    block
}

/// The blocks that are hashed into the verification key of some trees, before the empty last block.
pub fn merkle_caps_to_blocks(caps: &Vec<MerkleTreeCapVarLength>) -> (r: Vec<[u32; 16]>)
    ensures
        are_digest_blocks(r@, caps@),
{
    let mut r: Vec<[u32; 16]> = Vec::new();
    let mut i: usize = 0;
    while i < caps.len()
        invariant
            i <= caps@.len(),
            r@.len() == all_digests(caps@.take(i as int)).len(),
            forall|k: int|
                0 <= k < r@.len() ==> #[trigger] r@[k]@ == digest_block(
                    all_digests(caps@.take(i as int))[k]@,
                ),
        decreases caps@.len() - i,
    {
        let cap = &caps[i].cap;
        let ghost so_far = all_digests(caps@.take(i as int));
        assert(caps@.take(i + 1).drop_last() =~= caps@.take(i as int));
        assert(all_digests(caps@.take(i + 1)) == so_far + cap@);
        let mut j: usize = 0;
        while j < cap.len()
            invariant
                j <= cap@.len(),
                r@.len() == so_far.len() + j,
                forall|k: int|
                    0 <= k < r@.len() ==> #[trigger] r@[k]@ == digest_block((so_far + cap@)[k]@),
            decreases cap@.len() - j,
        {
            r.push(block_of(&cap[j]));
            j = j + 1;
        }
        i = i + 1;
    }
    assert(caps@.take(i as int) =~= caps@);
    r
}

/// A digest as it is shown: eight lower case digits for each word.
pub fn digest_to_text(digest: &[u32; 8]) -> (r: String)
    ensures
        r@ == text::hex(digest@, false),
{
    hex_string(digest.as_slice(), false)
}

/// The verification key of some trees, as it is shown: `hash` absorbs the blocks of their digests as
/// full ones and closes with an empty block.
pub fn merkle_caps_to_hash<F: FnOnce(&Vec<[u32; 16]>) -> [u32; 8]>(
    caps: &Vec<MerkleTreeCapVarLength>,
    hash: F,
) -> (r: String)
    requires
        forall|blocks: Vec<[u32; 16]>| #[trigger]
            are_digest_blocks(blocks@, caps@) ==> call_requires(hash, (&blocks,)),
    ensures
        exists|blocks: Vec<[u32; 16]>, digest: [u32; 8]|
            {
                &&& are_digest_blocks(blocks@, caps@)
                &&& #[trigger] call_ensures(hash, (&blocks,), digest)
                &&& r@ == text::hex(digest@, false)
            },
{
    let blocks = merkle_caps_to_blocks(caps);
    assert(are_digest_blocks(blocks@, caps@));
    let digest = hash(&blocks);
    digest_to_text(&digest)
}

/// Whether blocks hold the digests of some trees, one for each.
pub open spec fn are_digest_blocks(
    blocks: Seq<[u32; 16]>,
    caps: Seq<MerkleTreeCapVarLength>,
) -> bool {
    &&& blocks.len() == all_digests(caps).len()
    &&& forall|i: int|
        0 <= i < blocks.len() ==> #[trigger] blocks[i]@ == digest_block(all_digests(caps)[i]@)
}

/// The numbers by which the universal verifier knows what it is to verify.
pub struct VerifierCircuitsIdentifiers {
    pub base_layer: u32,
    pub recursion_layer: u32,
    pub risc_v: u32,
    pub combined_recursion_layers: u32,
}

/// Words with another before them.
fn with_identifier(identifier: u32, words: &[u32]) -> (r: Vec<u32>)
    ensures
        r@ == seq![identifier] + words@,
{
    let mut r: Vec<u32> = Vec::new();
    r.push(identifier);
    circuit_proof::append_words(&mut r, words);
    assert(r@ =~= seq![identifier] + words@);
    r
}

/// The words of one proof of the main circuit for the universal verifier.
pub fn flatten_file(proof_read: &Proof, identifiers: &VerifierCircuitsIdentifiers) -> (r: Vec<u32>)
    ensures
        r@ == seq![identifiers.risc_v] + proof_read@.full_words(true),
{
    let words = proof_read.flatten_full_proof(true);
    with_identifier(identifiers.risc_v, words.as_slice())
}

/// The words of all proofs of a program for the universal verifier, from those that the verifier
/// of its layer reads; `None` if there are no proofs.
pub fn flatten_all(
    metadata: &ProofMetadata,
    oracle: &[u32],
    identifiers: &VerifierCircuitsIdentifiers,
) -> (r: Option<Vec<u32>>)
    ensures
        if metadata.basic_proof_count > 0 {
            r is Some && r->0@ == seq![identifiers.base_layer] + oracle@
        } else if metadata.reduced_proof_count > 0 {
            r is Some && r->0@ == seq![identifiers.recursion_layer] + oracle@
        } else {
            r is None
        },
{
    if metadata.basic_proof_count > 0 {
        Some(with_identifier(identifiers.base_layer, oracle))
    } else if metadata.reduced_proof_count > 0 {
        Some(with_identifier(identifiers.recursion_layer, oracle))
    } else {
        None
    }
}

/// Why the proofs of two programs cannot be combined.
#[derive(Clone, Copy, Debug, PartialEq, Eq)]
pub enum CombinationFault {
    /// One of them has no proofs of the reduced machine.
    NoReducedProofs,
    /// Their recursion chains differ.
    DifferentChains,
}

/// Decides whether two hashes of recursion chains are the same.
fn same_chain(a: &Option<[u32; 8]>, b: &Option<[u32; 8]>) -> (r: bool)
    ensures
        r == (*a == *b),
{
    match (a, b) {
        (None, None) => true,
        (Some(x), Some(y)) => {
            let mut i: usize = 0;
            while i < 8
                invariant
                    *a == Some(*x),
                    *b == Some(*y),
                    i <= 8,
                    forall|j: int| 0 <= j < i ==> x@[j] == y@[j],
                decreases 8 - i,
            {
                if x[i] != y[i] {
                    assert(x@ != y@);
                    return false;
                }
                i = i + 1;
            }
            assert(x@ =~= y@);
            assert(*x =~= *y);
            true
        },
        _ => false,
    }
}

/// The words of the proofs of two programs for the universal verifier. Both need proofs of the
/// reduced machine, and both must have the same recursion chain hash.
pub fn flatten_two(
    first: &ProofMetadata,
    first_oracle: &[u32],
    second: &ProofMetadata,
    second_oracle: &[u32],
    identifiers: &VerifierCircuitsIdentifiers,
) -> (r: Result<Vec<u32>, CombinationFault>)
    ensures
        if first.reduced_proof_count == 0 || second.reduced_proof_count == 0 {
            r == Err::<Vec<u32>, CombinationFault>(CombinationFault::NoReducedProofs)
        } else if first.prev_end_params_output_hash != second.prev_end_params_output_hash {
            r == Err::<Vec<u32>, CombinationFault>(CombinationFault::DifferentChains)
        } else {
            r is Ok && r->Ok_0@ == seq![identifiers.combined_recursion_layers] + first_oracle@
                + second_oracle@
        },
{
    if first.reduced_proof_count == 0 || second.reduced_proof_count == 0 {
        Err(CombinationFault::NoReducedProofs)
    } else if !same_chain(
        &first.prev_end_params_output_hash,
        &second.prev_end_params_output_hash,
    ) {
        Err(CombinationFault::DifferentChains)
    } else {
        let mut words = with_identifier(identifiers.combined_recursion_layers, first_oracle);
        circuit_proof::append_words(&mut words, second_oracle);
        Ok(words)
    }
}

/// Which verifier the proofs of a program go to.
#[derive(Clone, Copy, Debug, PartialEq, Eq)]
pub enum LayerToVerify {
    Base,
    Recursion,
    /// Basic proofs come with reduced ones.
    Mixed,
    /// There is no verifier of this layer.
    ReducedLog23,
    NoProofs,
}

/// Decides which verifier the proofs of a program go to.
pub fn layer_to_verify(metadata: &ProofMetadata) -> (r: LayerToVerify)
    ensures
        r == (if metadata.basic_proof_count > 0 {
            if metadata.reduced_proof_count == 0 {
                LayerToVerify::Base
            } else {
                LayerToVerify::Mixed
            }
        } else if metadata.reduced_proof_count > 0 {
            LayerToVerify::Recursion
        } else if metadata.reduced_log_23_proof_count > 0 {
            LayerToVerify::ReducedLog23
        } else {
            LayerToVerify::NoProofs
        }),
{
    if metadata.basic_proof_count > 0 {
        if metadata.reduced_proof_count == 0 {
            LayerToVerify::Base
        } else {
            LayerToVerify::Mixed
        }
    } else if metadata.reduced_proof_count > 0 {
        LayerToVerify::Recursion
    } else if metadata.reduced_log_23_proof_count > 0 {
        LayerToVerify::ReducedLog23
    } else {
        LayerToVerify::NoProofs
    }
}

/// The parts of a program proof that goes to the verifier of the recursion layer; `None` if it has
/// no proofs of main circuits.
pub fn split_for_recursion_layer(program_proof: ProgramProof) -> (r: Option<
    (ProofMetadata, ProofList),
>)
    ensures
        match r {
            Some((metadata, proof_list)) => {
                &&& program_proof.base_layer_proofs@.len() > 0
                &&& program::is_split_of(program_proof, metadata, proof_list)
            },
            None => program_proof.base_layer_proofs@.len() == 0,
        },
{
    let (metadata, proof_list) = program_proof.to_metadata_and_proof_list();
    if metadata.reduced_proof_count > 0 {
        Some((metadata, proof_list))
    } else {
        None
    }
}

/// The beginning of a file name tells the circuit: `delegation_proof_1991_`, `proof_` and
/// `reduced_proof_` do, and a name that begins with none of them tells none.
pub proof fn law_names_begin_with_their_circuits(rest: Seq<char>, other: Seq<char>)
    ensures
        circuit_type_of("delegation_proof_1991_"@ + rest) == Some(
            CircuitType::DelegatedExtendedBlake,
        ),
        circuit_type_of("proof_"@ + rest) == Some(CircuitType::RiscV),
        circuit_type_of("reduced_proof_"@ + rest) == Some(CircuitType::RiscVReduced),
        circuit_type_of(other) is Some ==> "delegation_proof_1991_"@.is_prefix_of(other)
            || "proof_"@.is_prefix_of(other) || "reduced_proof_"@.is_prefix_of(other),
{
    reveal_strlit("delegation_proof_1991_");
    reveal_strlit("proof_");
    reveal_strlit("reduced_proof_");
    let (a, b, c) = ("delegation_proof_1991_"@, "proof_"@, "reduced_proof_"@);
    assert((a + rest).subrange(0, 22) =~= a);
    assert((b + rest).subrange(0, 6) =~= b);
    assert((c + rest).subrange(0, 14) =~= c);
    assert(a[0] == 'd' && b[0] == 'p' && c[0] == 'r');
    if a.is_prefix_of(b + rest) {
        assert((b + rest).subrange(0, 22)[0] == (b + rest)[0]);
    }
    if a.is_prefix_of(c + rest) {
        assert((c + rest).subrange(0, 22)[0] == (c + rest)[0]);
    }
    if b.is_prefix_of(c + rest) {
        assert((c + rest).subrange(0, 6)[0] == (c + rest)[0]);
    }
}

/// The circuits of the machines initialize and tear down memory, and that of the hash delegation
/// does not.
pub proof fn law_circuits_with_memory()
    ensures
        has_shuffle_ram(CircuitType::RiscV),
        has_shuffle_ram(CircuitType::RiscVReduced),
        !has_shuffle_ram(CircuitType::DelegatedExtendedBlake),
{
}

/// The digests of trees are those of each tree in turn, and a block holds the eight words of its
/// digest and zeros behind them.
pub proof fn law_digests_of_trees(
    first: Seq<MerkleTreeCapVarLength>,
    tree: MerkleTreeCapVarLength,
    second: Seq<MerkleTreeCapVarLength>,
    digest: [u32; 8],
    i: int,
)
    ensures
        all_digests(Seq::empty()) == Seq::<[u32; 8]>::empty(),
        all_digests(seq![tree]) == tree.cap@,
        all_digests(first + second) == all_digests(first) + all_digests(second),
        digest_block(digest@).len() == 16,
        0 <= i < 8 ==> digest_block(digest@)[i] == digest@[i],
        8 <= i < 16 ==> digest_block(digest@)[i] == 0,
    decreases second.len(),
{
    let alone = seq![tree];
    assert(alone.drop_last() =~= Seq::<MerkleTreeCapVarLength>::empty());
    assert(all_digests(alone.drop_last()) == Seq::<[u32; 8]>::empty());
    assert(all_digests(alone) =~= tree.cap@);
    if second.len() == 0 {
        assert(first + second =~= first);
        assert(all_digests(first + second) =~= all_digests(first) + all_digests(second));
    } else {
        law_digests_of_trees(first, tree, second.drop_last(), digest, i);
        assert((first + second).drop_last() =~= first + second.drop_last());
        assert((first + second).last() == second.last());
        assert(all_digests(first + second) =~= all_digests(first) + all_digests(second));
    }
}

/// A block of a digest begins with its eight words, and is zero behind them.
pub proof fn law_blocks_of_digests(
    blocks: Seq<[u32; 16]>,
    caps: Seq<MerkleTreeCapVarLength>,
    i: int,
    k: int,
)
    requires
        are_digest_blocks(blocks, caps),
        0 <= i < all_digests(caps).len(),
        0 <= k < 16,
    ensures
        blocks.len() == all_digests(caps).len(),
        k < 8 ==> blocks[i]@[k] == all_digests(caps)[i]@[k],
        k >= 8 ==> blocks[i]@[k] == 0,
{
    assert(blocks[i]@ == digest_block(all_digests(caps)[i]@));
}

} // verus!
