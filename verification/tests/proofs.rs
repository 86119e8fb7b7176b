use airbender::proofs::circuit_proof::Proof;
use airbender::proofs::files::ProofFile;
use airbender::proofs::program::{ProgramProof, ProofList, ProofMetadata};
use airbender::trace::records::FinalRegisterValue;
use airbender::trace::transcript::MerkleTreeCapVarLength;
use std::collections::BTreeMap;

fn a_proof(n: u32) -> Proof {
    Proof {
        skeleton: vec![n, 1],
        skeleton_without_shuffle_ram: vec![n, 0],
        queries: vec![vec![n + 1], vec![n + 2]],
        setup_tree_caps: vec![MerkleTreeCapVarLength { cap: vec![[n; 8]] }],
    }
}

fn words(proofs: &[Proof]) -> Vec<Vec<u32>> {
    proofs.iter().map(|p| p.flatten_full_proof(true)).collect()
}

fn metadata() -> ProofMetadata {
    ProofMetadata {
        basic_proof_count: 2,
        reduced_proof_count: 1,
        reduced_log_23_proof_count: 1,
        deprecated_final_proof_count: 9,
        delegation_proof_count: vec![(1994, 1), (1991, 2)],
        register_values: vec![FinalRegisterValue { value: 3, last_access_timestamp: 4 }; 32],
        end_params: [5; 8],
        prev_end_params_output_hash: Some([6; 8]),
        prev_end_params_output: Some([7; 16]),
    }
}

fn list() -> ProofList {
    ProofList {
        basic_proofs: vec![a_proof(10), a_proof(11)],
        reduced_proofs: vec![a_proof(20)],
        reduced_log_23_proofs: vec![a_proof(30)],
        delegation_proofs: vec![
            (1994, vec![a_proof(40)]),
            (1991, vec![a_proof(50), a_proof(51)]),
        ],
    }
}

#[test]
fn proof_is_flattened() {
    assert_eq!(a_proof(10).flatten_full_proof(true), vec![10, 1, 11, 12]);
    assert_eq!(a_proof(10).flatten_full_proof(false), vec![10, 0, 11, 12]);
    let copy = a_proof(10).copy();
    assert_eq!(copy.flatten_full_proof(true), vec![10, 1, 11, 12]);
    assert_eq!(copy.setup_tree_caps[0].cap, vec![[10u32; 8]]);
}

#[test]
fn layers_are_joined_in_order() {
    let program = ProgramProof::from_proof_list_and_metadata(&list(), &metadata());
    let expected = words(&[a_proof(10), a_proof(11), a_proof(30), a_proof(20)]);
    assert_eq!(words(&program.base_layer_proofs), expected);
    assert_eq!(program.get_num_delegation_proofs_for_type(1991), 2);
    assert_eq!(program.get_num_delegation_proofs_for_type(1994), 1);
    assert_eq!(program.get_num_delegation_proofs_for_type(1992), 0);
    assert_eq!(program.end_params, [5; 8]);
    assert_eq!(program.recursion_chain_preimage, Some([7; 16]));
    assert_eq!(program.recursion_chain_hash, Some([6; 8]));
}

#[test]
fn later_entry_of_a_type_counts() {
    let mut list = list();
    list.delegation_proofs.push((1994, vec![a_proof(60), a_proof(61), a_proof(62)]));
    let program = ProgramProof::from_proof_list_and_metadata(&list, &metadata());
    assert_eq!(program.get_num_delegation_proofs_for_type(1994), 3);
}

#[test]
fn split_and_join() {
    let program = ProgramProof::from_proof_list_and_metadata(&list(), &metadata());
    let flat = program.flatten_for_delegation_circuits_set(&[1991, 1994], 19);
    let (metadata, list) = program.to_metadata_and_proof_list();
    assert_eq!(metadata.reduced_proof_count, 4);
    assert_eq!(metadata.basic_proof_count, 0);
    assert_eq!(metadata.delegation_proof_count, vec![(1991, 2), (1994, 1)]);
    assert_eq!(metadata.total_proofs(), 7);
    assert_eq!(metadata.proof_files(), list.proof_files());
    assert_eq!(list.delegation_proofs[0].0, 1991);
    assert_eq!(list.delegation_proofs[1].0, 1994);
    let joined = ProgramProof::from_proof_list_and_metadata(&list, &metadata);
    assert_eq!(joined.flatten_for_delegation_circuits_set(&[1991, 1994], 19), flat);
}

#[test]
fn program_is_flattened() {
    let mut delegation_proofs = BTreeMap::new();
    delegation_proofs.insert(1991, vec![a_proof(50)]);
    let program = ProgramProof {
        base_layer_proofs: vec![a_proof(10)],
        delegation_proofs,
        register_final_values: vec![
            FinalRegisterValue { value: 3, last_access_timestamp: 1 << 19 | 4 };
            32
        ],
        end_params: [0; 8],
        recursion_chain_preimage: Some([9; 16]),
        recursion_chain_hash: None,
    };
    assert!(program.has_only_types(&[1994, 1991]));
    assert!(!program.has_only_types(&[1994]));
    let words = program.flatten_for_delegation_circuits_set(&[1994, 1991], 19);
    assert_eq!(&words[..3], &[3, 4, 1]);
    assert_eq!(&words[96..101], &[1, 10, 1, 11, 12]);
    assert_eq!(&words[101..107], &[0, 1, 50, 0, 51, 52]);
    assert_eq!(&words[107..], &[9u32; 16]);
}

#[test]
fn counts_and_parameters() {
    assert_eq!(metadata().total_proofs(), 7);
    assert_eq!(metadata().create_prev_metadata(), ([5; 8], Some([7; 16])));
}

#[test]
fn last_proof_by_layer() {
    let mut list = list();
    assert_eq!(list.get_last_proof().skeleton[0], 11);
    list.basic_proofs.clear();
    assert_eq!(list.get_last_proof().skeleton[0], 30);
    list.reduced_log_23_proofs.clear();
    assert_eq!(list.get_last_proof().skeleton[0], 20);
}

#[test]
fn file_names() {
    assert_eq!(ProofFile::Basic(0).file_name(), "proof_0.json");
    assert_eq!(ProofFile::Reduced(12).file_name(), "reduced_proof_12.json");
    assert_eq!(ProofFile::ReducedLog23(7).file_name(), "reduced_log_23_proof_7.json");
    assert_eq!(ProofFile::Delegation(1991, 305).file_name(), "delegation_proof_1991_305.json");
}

#[test]
fn file_names_are_distinct() {
    let names: Vec<String> = metadata().proof_files().iter().map(|f| f.file_name()).collect();
    assert_eq!(names.len(), 7);
    for (i, a) in names.iter().enumerate() {
        for b in names.iter().skip(i + 1) {
            assert_ne!(a, b);
        }
    }
}

#[test]
fn smaller_counts_give_the_first_proofs() {
    let list = list();
    let files = list.proof_files();
    let proofs = list.proofs_in_order();
    let fewer = ProofMetadata {
        basic_proof_count: 1,
        reduced_proof_count: 0,
        delegation_proof_count: vec![(1994, 1), (1991, 1)],
        ..metadata()
    };
    let read: Vec<Proof> = fewer
        .proof_files()
        .iter()
        .map(|file| proofs[files.iter().position(|f| f == file).unwrap()].copy())
        .collect();
    let loaded = ProofList::from_proofs_in_order(&fewer, read);
    assert_eq!(words(&loaded.basic_proofs), words(&list.basic_proofs[..1]));
    assert!(loaded.reduced_proofs.is_empty());
    assert_eq!(words(&loaded.reduced_log_23_proofs), words(&list.reduced_log_23_proofs));
    assert_eq!(words(&loaded.delegation_proofs[0].1), words(&list.delegation_proofs[0].1));
    assert_eq!(loaded.delegation_proofs[1].0, 1991);
    assert_eq!(words(&loaded.delegation_proofs[1].1), words(&list.delegation_proofs[1].1[..1]));
}

#[test]
fn split_proof_is_read_back() {
    let program = ProgramProof::from_proof_list_and_metadata(&list(), &metadata());
    let (metadata, list) = program.to_metadata_and_proof_list();
    let read: Vec<Proof> = list.proofs_in_order().iter().map(|p| p.copy()).collect();
    assert_eq!(read.len(), metadata.total_proofs());
    let loaded = ProofList::from_proofs_in_order(&metadata, read);
    assert_eq!(words(&loaded.reduced_proofs), words(&list.reduced_proofs));
    assert_eq!(loaded.delegation_proofs.len(), 2);
    assert_eq!(loaded.delegation_proofs[0].0, 1991);
    assert_eq!(words(&loaded.delegation_proofs[0].1), words(&list.delegation_proofs[0].1));
    assert_eq!(words(&loaded.delegation_proofs[1].1), words(&list.delegation_proofs[1].1));
}

#[test]
fn written_list_is_read_back() {
    let list = list();
    assert_eq!(list.proof_files(), metadata().proof_files());
    let read: Vec<Proof> = list.proofs_in_order().iter().map(|p| p.copy()).collect();
    let loaded = ProofList::from_proofs_in_order(&metadata(), read);
    assert_eq!(words(&loaded.basic_proofs), words(&list.basic_proofs));
    assert_eq!(words(&loaded.reduced_proofs), words(&list.reduced_proofs));
    assert_eq!(words(&loaded.reduced_log_23_proofs), words(&list.reduced_log_23_proofs));
    assert_eq!(loaded.delegation_proofs.len(), 2);
    assert_eq!(loaded.delegation_proofs[1].0, 1991);
    assert_eq!(words(&loaded.delegation_proofs[1].1), words(&list.delegation_proofs[1].1));
}
