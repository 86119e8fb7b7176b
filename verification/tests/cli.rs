use airbender::cli::input::{
    decode_input, decode_optional, field_text, rpc_result, strip_0x, words_from_le_bytes,
    FinalInputSource, InputConfig, InputFault, InputSource, InputType,
};
use airbender::cli::run::{compare_results, result_text, run_binary, Difference, DEFAULT_CYCLES};
use airbender::cli::setup::{key_of, SetupCache};
use airbender::cli::verification::{
    digest_to_text, flatten_all, flatten_file, flatten_two, layer_to_verify,
    merkle_caps_to_blocks, merkle_caps_to_hash, proof_name_to_circuit_type, shuffle_ram_inits_and_teardowns,
    split_for_recursion_layer, try_proof_name_to_circuit_type, verifier_input, CircuitType,
    CombinationFault, LayerToVerify, VerifierCircuitsIdentifiers,
};
use airbender::circuit::assembly::TableType;
use airbender::proofs::circuit_proof::Proof;
use airbender::proofs::files::ProofFile;
use airbender::proofs::program::{ProgramProof, ProofMetadata};
use airbender::simulator::config::IMStandardIsaConfig;
use airbender::simulator::delegations::NoExtraCSRs;
use airbender::simulator::isa::CycleFault;
use airbender::tables::driver::MachineTables;
use airbender::tables::lookup::{LookupTable, TableContent};
use airbender::text::{hex_string, trim, u32_from_hex_string, HexFault};
use airbender::trace::transcript::MerkleTreeCapVarLength;
use std::collections::hash_map::DefaultHasher;
use std::collections::BTreeMap;
use std::hash::{Hash, Hasher};

fn config(file: Option<&str>, rpc: Option<&str>, batch: Option<u64>) -> InputConfig {
    InputConfig {
        input_file: file.map(String::from),
        input_type: InputType::default(),
        input_rpc: rpc.map(String::from),
        input_batch: batch,
    }
}

#[test]
fn file_goes_before_service() {
    match config(Some("a"), Some("b"), None).source() {
        InputSource::File(name, kind) => {
            assert_eq!(name, "a");
            assert_eq!(kind, InputType::Hex);
        }
        _ => panic!("a file was expected"),
    }
    assert!(matches!(config(None, Some("b"), None).source(), InputSource::Rpc(url) if url == "b"));
    assert!(matches!(config(None, None, Some(3)).source(), InputSource::Nothing));
}

#[test]
fn final_input_comes_from_a_batch() {
    match config(None, Some("http://host"), Some(120)).final_source() {
        FinalInputSource::Url(url) => assert_eq!(url, "http://host/downloads/120"),
        _ => panic!("an address was expected"),
    }
    assert!(matches!(
        config(None, Some("http://host"), None).final_source(),
        FinalInputSource::NoBatch
    ));
    assert!(matches!(
        config(Some("f"), None, None).final_source(),
        FinalInputSource::File(name) if name == "f"
    ));
    assert!(matches!(config(None, None, None).final_source(), FinalInputSource::Nothing));
}

#[test]
fn hex_round_trip() {
    let words = vec![0u32, 1, 0xdeadbeef, u32::MAX];
    let upper = hex_string(&words, true);
    assert_eq!(upper, "0000000000000001DEADBEEFFFFFFFFF");
    assert_eq!(u32_from_hex_string(&upper), Ok(words.clone()));
    let lower = hex_string(&words, false);
    assert_eq!(lower, "0000000000000001deadbeefffffffff");
    assert_eq!(decode_input(&lower, InputType::Hex), Ok(words));
}

#[test]
fn hex_faults() {
    assert_eq!(u32_from_hex_string("1234567"), Err(HexFault::Length));
    assert_eq!(u32_from_hex_string("1234567g"), Err(HexFault::Digit));
    assert_eq!(u32_from_hex_string(""), Ok(vec![]));
    assert_eq!(
        decode_input("12", InputType::Hex),
        Err(InputFault::Hex(HexFault::Length))
    );
}

#[test]
fn json_input_is_base_64() {
    // The bytes 1, 0, 0, 0, 2, 0, 0, 128 and one more.
    let text = "{\"prover_input\": \"AQAAAAIAAIAJ\"}";
    assert_eq!(
        decode_input(text, InputType::ProverInputJson),
        Ok(vec![1, 0x8000_0002])
    );
}

#[test]
fn json_input_without_field_is_empty() {
    assert_eq!(decode_input("{}", InputType::ProverInputJson), Ok(vec![]));
    assert_eq!(decode_input("[1]", InputType::ProverInputJson), Ok(vec![]));
    assert_eq!(
        decode_input("{\"prover_input\": 5}", InputType::ProverInputJson),
        Ok(vec![])
    );
}

#[test]
fn json_faults() {
    assert_eq!(
        decode_input("{", InputType::ProverInputJson),
        Err(InputFault::Json)
    );
    assert_eq!(
        decode_input("{\"prover_input\": \"*\"}", InputType::ProverInputJson),
        Err(InputFault::Base64)
    );
}

#[test]
fn missing_text_is_no_input() {
    assert_eq!(decode_optional(None, InputType::Hex), Ok(None));
    assert_eq!(
        decode_optional(Some("0000000A".to_string()), InputType::Hex),
        Ok(Some(vec![10]))
    );
    assert_eq!(field_text(None), "");
    assert_eq!(field_text(Some("x".to_string())), "x");
}

#[test]
fn reply_of_a_service() {
    assert_eq!(rpc_result("{\"result\": \"0x12\"}"), Ok(Some("12".to_string())));
    assert_eq!(rpc_result("{\"result\": \"12\"}"), Ok(Some("12".to_string())));
    assert_eq!(rpc_result("{\"result\": null}"), Ok(None));
    assert_eq!(rpc_result("nothing"), Err(InputFault::Json));
    assert_eq!(strip_0x("0x"), "");
    assert_eq!(strip_0x("0"), "0");
    assert_eq!(strip_0x("x0x"), "x0x");
}

#[test]
fn bytes_that_fill_no_word_are_left_out() {
    assert_eq!(words_from_le_bytes(&[1, 2, 3, 4, 5, 6, 7]), vec![0x0403_0201]);
    assert_eq!(words_from_le_bytes(&[1, 2, 3]), Vec::<u32>::new());
}

#[test]
fn circuit_types_by_file_name() {
    assert_eq!(
        proof_name_to_circuit_type("delegation_proof_1991_0.json"),
        CircuitType::DelegatedExtendedBlake
    );
    assert_eq!(proof_name_to_circuit_type("proof_12.json"), CircuitType::RiscV);
    assert_eq!(
        proof_name_to_circuit_type("reduced_proof_0.json"),
        CircuitType::RiscVReduced
    );
    assert_eq!(try_proof_name_to_circuit_type("reduced_log_23_proof_0.json"), None);
    assert_eq!(try_proof_name_to_circuit_type("delegation_proof_1994_0.json"), None);
    assert_eq!(try_proof_name_to_circuit_type("other"), None);
    assert!(shuffle_ram_inits_and_teardowns(CircuitType::RiscV));
    assert!(!shuffle_ram_inits_and_teardowns(CircuitType::DelegatedExtendedBlake));
}

#[test]
fn file_names_speak_of_circuits() {
    let kind = |f: ProofFile| try_proof_name_to_circuit_type(&f.file_name());
    assert_eq!(kind(ProofFile::Basic(3)), Some(CircuitType::RiscV));
    assert_eq!(kind(ProofFile::Reduced(3)), Some(CircuitType::RiscVReduced));
    assert_eq!(kind(ProofFile::ReducedLog23(3)), None);
    assert_eq!(
        kind(ProofFile::Delegation(1991, 3)),
        Some(CircuitType::DelegatedExtendedBlake)
    );
    assert_eq!(kind(ProofFile::Delegation(19910, 3)), None);
}

fn a_proof() -> Proof {
    Proof {
        skeleton: vec![1, 2],
        skeleton_without_shuffle_ram: vec![3],
        queries: vec![vec![4], vec![5, 6]],
        setup_tree_caps: vec![],
    }
}

#[test]
fn verifier_reads_skeleton_and_queries() {
    let input = verifier_input("proof_0.json", &a_proof()).unwrap();
    assert_eq!(input.circuit_type, CircuitType::RiscV);
    assert_eq!(input.oracle_data, vec![1, 2, 4, 5, 6]);
    let input = verifier_input("delegation_proof_1991_0.json", &a_proof()).unwrap();
    assert_eq!(input.oracle_data, vec![3, 4, 5, 6]);
    assert!(verifier_input("x.json", &a_proof()).is_none());
}

#[test]
fn digests_are_hashed_in_blocks() {
    let caps = vec![
        MerkleTreeCapVarLength { cap: vec![[1; 8]] },
        MerkleTreeCapVarLength { cap: vec![[2; 8], [3; 8]] },
    ];
    let blocks = merkle_caps_to_blocks(&caps);
    assert_eq!(blocks.len(), 3);
    assert_eq!(&blocks[1][..8], &[2u32; 8]);
    assert_eq!(&blocks[1][8..], &[0u32; 8]);
    let key = merkle_caps_to_hash(&caps, |blocks| {
        let mut digest = [0u32; 8];
        digest[0] = blocks.len() as u32;
        digest[7] = blocks.iter().map(|b| b[0]).sum();
        digest
    });
    assert!(key.starts_with("00000003"));
    assert!(key.ends_with("00000006"));
    let text = digest_to_text(&[0xab, 0, 0, 0, 0, 0, 0, 1]);
    assert_eq!(text.len(), 64);
    assert!(text.starts_with("000000ab00000000"));
    assert!(text.ends_with("00000001"));
}

fn metadata(basic: usize, reduced: usize, log_23: usize) -> ProofMetadata {
    ProofMetadata {
        basic_proof_count: basic,
        reduced_proof_count: reduced,
        reduced_log_23_proof_count: log_23,
        deprecated_final_proof_count: 0,
        delegation_proof_count: vec![],
        register_values: vec![],
        end_params: [0; 8],
        prev_end_params_output_hash: None,
        prev_end_params_output: None,
    }
}

const IDENTIFIERS: VerifierCircuitsIdentifiers = VerifierCircuitsIdentifiers {
    base_layer: 10,
    recursion_layer: 11,
    risc_v: 12,
    combined_recursion_layers: 13,
};

#[test]
fn flattened_words_start_with_an_identifier() {
    assert_eq!(flatten_file(&a_proof(), &IDENTIFIERS), vec![12, 1, 2, 4, 5, 6]);
    assert_eq!(flatten_all(&metadata(1, 1, 0), &[7], &IDENTIFIERS), Some(vec![10, 7]));
    assert_eq!(flatten_all(&metadata(0, 1, 0), &[7], &IDENTIFIERS), Some(vec![11, 7]));
    assert_eq!(flatten_all(&metadata(0, 0, 1), &[7], &IDENTIFIERS), None);
    assert_eq!(
        flatten_two(&metadata(0, 1, 0), &[7], &metadata(0, 2, 0), &[8, 9], &IDENTIFIERS),
        Ok(vec![13, 7, 8, 9])
    );
    assert_eq!(
        flatten_two(&metadata(1, 0, 0), &[7], &metadata(0, 2, 0), &[8], &IDENTIFIERS),
        Err(CombinationFault::NoReducedProofs)
    );
}

#[test]
fn combined_proofs_have_one_chain() {
    let mut first = metadata(0, 1, 0);
    let mut second = metadata(0, 1, 0);
    first.prev_end_params_output_hash = Some([1, 2, 3, 4, 5, 6, 7, 8]);
    assert_eq!(
        flatten_two(&first, &[7], &second, &[8], &IDENTIFIERS),
        Err(CombinationFault::DifferentChains)
    );
    second.prev_end_params_output_hash = Some([1, 2, 3, 4, 5, 6, 7, 9]);
    assert_eq!(
        flatten_two(&first, &[7], &second, &[8], &IDENTIFIERS),
        Err(CombinationFault::DifferentChains)
    );
    second.prev_end_params_output_hash = first.prev_end_params_output_hash;
    assert_eq!(
        flatten_two(&first, &[7], &second, &[8], &IDENTIFIERS),
        Ok(vec![13, 7, 8])
    );
}

#[test]
fn layers_to_verify() {
    assert_eq!(layer_to_verify(&metadata(1, 0, 0)), LayerToVerify::Base);
    assert_eq!(layer_to_verify(&metadata(1, 1, 0)), LayerToVerify::Mixed);
    assert_eq!(layer_to_verify(&metadata(0, 1, 1)), LayerToVerify::Recursion);
    assert_eq!(layer_to_verify(&metadata(0, 0, 1)), LayerToVerify::ReducedLog23);
    assert_eq!(layer_to_verify(&metadata(0, 0, 0)), LayerToVerify::NoProofs);
}

#[test]
fn program_proof_for_the_recursion_layer() {
    let program = |base: Vec<Proof>| ProgramProof {
        base_layer_proofs: base,
        delegation_proofs: BTreeMap::new(),
        register_final_values: vec![],
        end_params: [1; 8],
        recursion_chain_preimage: None,
        recursion_chain_hash: None,
    };
    assert!(split_for_recursion_layer(program(vec![])).is_none());
    let (metadata, list) = split_for_recursion_layer(program(vec![a_proof()])).unwrap();
    assert_eq!(metadata.reduced_proof_count, 1);
    assert_eq!(list.reduced_proofs.len(), 1);
}

#[test]
fn program_is_run_and_compared() {
    // x10 = word of the oracle, x11 = 3, then a self loop.
    let program = [0x7c00_1573u32, 0x0030_0593, 0x6f];
    let outcome = run_binary::<IMStandardIsaConfig, _>(
        &program,
        1 << 12,
        Some(3),
        Some(vec![42]),
        &mut NoExtraCSRs,
    );
    let outcome = outcome.unwrap_or_else(|_| panic!("no fault was expected"));
    assert!(outcome.reached_end);
    assert_eq!(compare_results(&outcome.registers, &[42, 3]), None);
    assert_eq!(
        compare_results(&outcome.registers, &[42]),
        Some(Difference { place: 1, register: 3, expected: 0 })
    );
    assert_eq!(
        compare_results(&outcome.registers, &[42, 3, 0, 0, 0, 0, 0, 0, 9]),
        None
    );
    let text = result_text(&outcome.registers);
    assert_eq!(text, "42, 3, 0, 0, 0, 0, 0, 0, 0, 0, 0, 0, 0, 0, 0, 0");
}

#[test]
fn run_stops_at_a_fault() {
    let outcome =
        run_binary::<IMStandardIsaConfig, _>(&[0x13, 0], 64, None, None, &mut NoExtraCSRs);
    match outcome {
        Err((cycles, fault)) => {
            assert_eq!(cycles, 1);
            assert_eq!(fault, CycleFault::UnknownOpcode { opcode: 0 });
        }
        Ok(_) => panic!("a fault was expected"),
    }
    assert_eq!(DEFAULT_CYCLES, 32_000_000);
}

fn tables() -> MachineTables {
    MachineTables {
        used_tables: vec![],
        extra_tables: vec![],
        decoder_table: LookupTable {
            content: TableContent::Rows(vec![(0, 1, 0)]),
            id: TableType::OpTypeBitmask.to_table_id(),
        },
        use_rom_for_bytecode: true,
    }
}

#[test]
fn text_is_trimmed() {
    for text in ["", " ", "a", " a b ", "\t\r\n\u{b}x\u{c}", "\u{2003}y\u{3000}", "\u{200b}z\u{85}"] {
        assert_eq!(trim(text), text.trim());
    }
    let spaces: String = (0..0x11_0000).filter_map(char::from_u32).filter(|c| c.is_whitespace()).collect();
    assert_eq!(trim(&spaces), "");
    let others: String =
        (0..0x11_0000).filter_map(char::from_u32).filter(|c| !c.is_whitespace()).collect();
    assert!(others.chars().all(|c| trim(&c.to_string()).len() == c.len_utf8()));
}

#[test]
fn setups_are_made_once() {
    let mut cache: SetupCache<u8, char, usize> = SetupCache::new();
    let bytecode = vec![0u32; 0x8_0000];
    let (setup, evals) = cache.get_or_create_main_circuit(tables(), &bytecode, |s| s.domain_size);
    assert_eq!(setup.domain_size, 1 << 22);
    assert_eq!(*evals, 1 << 22);
    assert_eq!(cache.main_circuit_setup.len(), 1);
    let mut other = bytecode.clone();
    other[5] = 1;
    let (_, evals) = cache.get_or_create_main_circuit(tables(), &other, |_| 7);
    assert_eq!(*evals, 7);
    assert_eq!(cache.main_circuit_setup.len(), 2);
    let (_, evals) = cache.get_or_create_main_circuit(tables(), &bytecode.clone(), |_| panic!());
    assert_eq!(*evals, 1 << 22);
    assert_eq!(cache.main_circuit_setup.len(), 2);
    assert!(cache.main_circuit_setup.contains_key(&key_of(&bytecode)));
    assert!(cache.main_circuit_setup.contains_key(&key_of(&other)));
}

#[test]
fn reduced_setups_are_made_once() {
    let mut cache: SetupCache<u32, char, usize> = SetupCache::new();
    let (first, second) = (vec![1u32, 2], vec![1u32, 2, 3]);
    let made = cache.get_or_create_reduced_circuit(&first, |b| b[0], |r| *r as usize + 10);
    assert_eq!(*made, (1, 11));
    let made = cache.get_or_create_reduced_circuit(&second, |b| b[2], |r| *r as usize + 20);
    assert_eq!(*made, (3, 23));
    let found = cache.get_or_create_reduced_circuit(&first, |_| panic!(), |_| panic!());
    assert_eq!(*found, (1, 11));
    assert_eq!(cache.reduced_circuit_setup.len(), 2);
    assert!(cache.main_circuit_setup.is_empty());
}

#[test]
fn program_number_is_its_hash() {
    for program in [vec![], vec![0u32], vec![0, 0], vec![0x1234_5678, 9]] {
        let mut hasher = DefaultHasher::new();
        program.hash(&mut hasher);
        assert_eq!(key_of(&program), hasher.finish());
    }
    assert_ne!(key_of(&vec![0]), key_of(&vec![0, 0]));
}

#[test]
fn delegation_setups_are_made_once() {
    let mut cache: SetupCache<u8, char, u32> = SetupCache::new();
    let (setups, evals) =
        cache.get_or_create_delegations(|| vec![(1991, 'a'), (1994, 'b')], |c| *c as u32);
    assert_eq!(setups, &vec![(1991, 'a'), (1994, 'b')]);
    assert_eq!(evals, &vec![(1991, 97), (1994, 98)]);
    let (setups, evals) = cache.get_or_create_delegations(|| panic!(), |_| panic!());
    assert_eq!(setups.len(), 2);
    assert_eq!(evals, &vec![(1991, 97), (1994, 98)]);
}
