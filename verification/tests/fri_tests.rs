use qingming_zkp_rs::fri::{Digest, FriConfig, FriConfigError, FriProof, FriProver, FriVerifier};
use qingming_zkp_rs::fri::FriQuery;
use qingming_zkp_rs::fri_verifier::VerifyOutcome;
use qingming_zkp_rs::prover::build_transcript_header;
use qingming_zkp_rs::transcript::replay_roots;
use qingming_zkp_rs::merkle::{build_merkle_tree_cpu, words_to_digests};
use qingming_zkp_rs::poseidon::PoseidonParams;

/// Fixed Poseidon constants for the tests: pseudo-random round constants and
/// a circulant MDS matrix.
fn test_params() -> PoseidonParams {
    let p = 0xFFFF_FFFF_0000_0001u64;
    let mut ark = Vec::with_capacity(360);
    let mut x: u64 = 0x243F_6A88_85A3_08D3;
    for _ in 0..360 {
        x = x
            .wrapping_mul(6364136223846793005)
            .wrapping_add(1442695040888963407);
        ark.push(x % p);
    }
    let circ = [17u64, 15, 41, 16, 2, 28, 13, 13, 39, 18, 34, 20];
    let mut mds = Vec::with_capacity(144);
    for i in 0..12 {
        for j in 0..12 {
            mds.push(circ[(j + 12 - i) % 12]);
        }
    }
    PoseidonParams::new(ark, mds)
}

fn test_fri_config() -> FriConfig {
    FriConfig {
        num_queries: 3,
        final_codeword_size: 128,
        domain_generator: 7,
        domain_offset: 1,
    }
}

fn run_fri_roundtrip(params: &PoseidonParams, domain_size: usize) -> FriProof {
    let initial_codeword: Vec<u64> = (0..(domain_size * 4)).map(|x| x as u64).collect();
    let config = test_fri_config();
    let prover = FriProver::new(params, config);
    prover.prove(&initial_codeword)
}

#[test]
fn test_fri_prove_verify_end_to_end() {
    let params = test_params();

    let domain_size = 1024usize;
    let initial_codeword: Vec<u64> = (0..(domain_size * 4)).map(|x| x as u64).collect();

    let config = test_fri_config();
    let prover = FriProver::new(&params, config.clone());
    let proof = prover.prove(&initial_codeword);

    assert_eq!(proof.config.num_queries, config.num_queries);
    assert_eq!(proof.final_codeword.len(), config.final_codeword_size);

    let verifier = FriVerifier::new(&params, config);
    let is_valid = verifier.verify(&proof);

    assert!(is_valid, "FRI prove/verify end-to-end failed");
}

#[test]
fn test_fri_tampered_root_fails() {
    let params = test_params();

    let domain_size = 1024usize;
    let initial_codeword: Vec<u64> = (0..(domain_size * 4)).map(|x| x as u64).collect();

    let config = test_fri_config();
    let prover = FriProver::new(&params, config.clone());
    let mut proof = prover.prove(&initial_codeword);

    proof.roots[0][0] ^= 1234567;

    let verifier = FriVerifier::new(&params, config);
    let is_valid = verifier.verify(&proof);

    assert!(!is_valid, "tampered root should fail");
}

#[test]
fn test_fri_tampered_opening_fails() {
    let params = test_params();

    let domain_size = 1024usize;
    let initial_codeword: Vec<u64> = (0..(domain_size * 4)).map(|x| x as u64).collect();

    let config = test_fri_config();
    let prover = FriProver::new(&params, config.clone());
    let mut proof = prover.prove(&initial_codeword);

    proof.queries[0].layers[0].x_eval[0] ^= 42;

    let verifier = FriVerifier::new(&params, config);
    let is_valid = verifier.verify(&proof);

    assert!(!is_valid, "tampered opening should fail");
}

#[test]
fn test_fri_prove_verify_end_to_end_twice() {
    let params = test_params();

    let proof1 = run_fri_roundtrip(&params, 1024);
    let proof2 = run_fri_roundtrip(&params, 1024);

    let verifier = FriVerifier::new(&params, test_fri_config());

    assert!(verifier.verify(&proof1));
    assert!(verifier.verify(&proof2));
}

#[test]
fn test_fri_proof_shape() {
    let params = test_params();
    let proof = run_fri_roundtrip(&params, 1024);
    // 1024 -> 512 -> 256 -> 128: four committed layers, three folds.
    assert_eq!(proof.roots.len(), 4);
    assert_eq!(proof.queries.len(), 3);
    for q in &proof.queries {
        assert!(q.initial_index < 512);
        assert_eq!(q.layers.len(), 3);
        for (k, o) in q.layers.iter().enumerate() {
            assert_eq!(o.layer_index, k);
            assert_eq!(o.domain_size, 1024 >> k);
            assert_eq!(o.x_index, o.local_index);
            assert_eq!(o.neg_x_index, o.local_index + o.domain_size / 2);
            assert_eq!(o.x_proof.len(), 10 - k);
        }
    }
}

#[test]
fn test_fri_prove_is_deterministic() {
    let params = test_params();
    let proof1 = run_fri_roundtrip(&params, 1024);
    let proof2 = run_fri_roundtrip(&params, 1024);
    assert_eq!(proof1.roots, proof2.roots);
    assert_eq!(proof1.final_codeword, proof2.final_codeword);
    let idx1: Vec<usize> = proof1.queries.iter().map(|q| q.initial_index).collect();
    let idx2: Vec<usize> = proof2.queries.iter().map(|q| q.initial_index).collect();
    assert_eq!(idx1, idx2);
}

#[test]
fn test_fri_small_domain_roundtrip() {
    let params = test_params();
    let config = FriConfig {
        num_queries: 2,
        final_codeword_size: 1,
        domain_generator: 7,
        domain_offset: 3,
    };
    let initial_codeword: Vec<u64> = (0..(8 * 4)).map(|x| (x * x + 5) as u64).collect();
    let prover = FriProver::new(&params, config.clone());
    let proof = prover.prove(&initial_codeword);
    assert_eq!(proof.roots.len(), 4);
    assert_eq!(proof.final_codeword.len(), 1);
    let verifier = FriVerifier::new(&params, config);
    assert!(verifier.verify(&proof));
}

#[test]
fn test_fri_stepwise_commit_matches_prove() {
    let params = test_params();
    let config = test_fri_config();
    let initial_codeword: Vec<u64> = (0..(1024 * 4)).map(|x| x as u64).collect();
    let prover = FriProver::new(&params, config.clone());
    let mut state = prover.start(&initial_codeword);
    while !state.is_finished() {
        let words = state.current_codeword_flat();
        let leaves = words_to_digests(&words);
        let tree = build_merkle_tree_cpu(&params, &leaves);
        assert!(prover.can_commit(&state, tree.len()));
        prover.commit_layer(&mut state, tree);
    }
    let stepwise = prover.finish(state);
    let direct = prover.prove(&initial_codeword);
    assert_eq!(stepwise.roots, direct.roots);
    assert_eq!(stepwise.final_codeword, direct.final_codeword);
    let verifier = FriVerifier::new(&params, config);
    assert!(verifier.verify(&stepwise));
}

#[test]
fn test_fri_config_mismatch_fails() {
    let params = test_params();
    let proof = run_fri_roundtrip(&params, 1024);
    let mut other = test_fri_config();
    other.num_queries = 4;
    let verifier = FriVerifier::new(&params, other);
    assert!(!verifier.verify(&proof));
}

#[test]
fn test_fri_empty_roots_fails() {
    let params = test_params();
    let mut proof = run_fri_roundtrip(&params, 1024);
    proof.roots.clear();
    let verifier = FriVerifier::new(&params, test_fri_config());
    assert!(!verifier.verify(&proof));
}

#[test]
fn test_fri_tampered_final_codeword_fails() {
    let params = test_params();
    let mut proof = run_fri_roundtrip(&params, 1024);
    proof.final_codeword[5][2] ^= 9;
    let verifier = FriVerifier::new(&params, test_fri_config());
    assert!(!verifier.verify(&proof));
}

#[test]
fn test_fri_wrong_query_index_fails() {
    let params = test_params();
    let mut proof = run_fri_roundtrip(&params, 1024);
    proof.queries[1].initial_index = (proof.queries[1].initial_index + 1) % 512;
    let verifier = FriVerifier::new(&params, test_fri_config());
    assert!(!verifier.verify(&proof));
}

#[test]
fn test_fri_missing_query_fails() {
    let params = test_params();
    let mut proof = run_fri_roundtrip(&params, 1024);
    proof.queries.pop();
    let verifier = FriVerifier::new(&params, test_fri_config());
    assert!(!verifier.verify(&proof));
}

#[test]
fn test_fri_tampered_path_fails() {
    let params = test_params();
    let mut proof = run_fri_roundtrip(&params, 1024);
    proof.queries[2].layers[1].neg_x_proof[0][1] ^= 1;
    let verifier = FriVerifier::new(&params, test_fri_config());
    assert!(!verifier.verify(&proof));
}

#[test]
fn test_fri_config_check_errors() {
    let ok = test_fri_config();
    assert_eq!(ok.check(1024), Ok(()));
    ok.validate(1024);
    let mut c = ok.clone();
    c.num_queries = 0;
    assert_eq!(c.check(1024), Err(FriConfigError::ZeroQueries));
    assert_eq!(ok.check(1000), Err(FriConfigError::DomainNotPowerOfTwo));
    assert_eq!(ok.check(384), Err(FriConfigError::DomainNotPowerOfTwo));
    let mut c = ok.clone();
    c.final_codeword_size = 96;
    assert_eq!(c.check(1024), Err(FriConfigError::FinalSizeNotPowerOfTwo));
    assert_eq!(ok.check(64), Err(FriConfigError::FinalSizeOutOfRange));
    let mut c = ok.clone();
    c.final_codeword_size = 0;
    assert_eq!(c.check(1024), Err(FriConfigError::FinalSizeNotPowerOfTwo));
}

#[test]
fn test_digest_alias_is_four_words() {
    let d: Digest = [1, 2, 3, 4];
    assert_eq!(d.len(), 4);
}

#[test]
fn test_fri_try_verify_accepts_prover_output() {
    let params = test_params();
    let proof = run_fri_roundtrip(&params, 1024);
    let verifier = FriVerifier::new(&params, test_fri_config());
    assert_eq!(verifier.try_verify(&proof), Some(VerifyOutcome::Accepted));
}

#[test]
fn test_fri_try_verify_rejects_empty_proof() {
    let params = test_params();
    let mut proof = run_fri_roundtrip(&params, 1024);
    proof.roots.clear();
    let verifier = FriVerifier::new(&params, test_fri_config());
    assert_eq!(verifier.try_verify(&proof), Some(VerifyOutcome::EmptyRoots));
    assert!(!verifier.verify(&proof));
}

#[test]
fn test_fri_try_verify_single_point_domain_is_outside() {
    // One root over a one-entry final codeword: the domain has one point and
    // no query index can be sampled.
    let params = test_params();
    let config = FriConfig {
        num_queries: 2,
        final_codeword_size: 1,
        domain_generator: 7,
        domain_offset: 1,
    };
    let leaf: Digest = [5, 6, 7, 8];
    let proof = FriProof {
        config,
        roots: vec![leaf],
        final_codeword: vec![leaf],
        queries: vec![],
    };
    let verifier = FriVerifier::new(&params, config);
    assert_eq!(verifier.try_verify(&proof), None);
    // with a root that does not match, the proof is simply rejected
    let mut bad = proof.clone();
    bad.roots[0][0] ^= 1;
    assert_eq!(verifier.try_verify(&bad), Some(VerifyOutcome::FinalRootMismatch));
}

#[test]
fn test_fri_try_verify_invalid_config_is_outside() {
    let params = test_params();
    let proof = run_fri_roundtrip(&params, 1024);
    // no queries: the configuration is invalid for every domain
    let mut config = test_fri_config();
    config.num_queries = 0;
    let mut p2 = proof.clone();
    p2.config = config;
    let verifier = FriVerifier::new(&params, config);
    assert_eq!(verifier.try_verify(&p2), None);
}

#[test]
fn test_fri_try_verify_names_the_failing_check() {
    let params = test_params();
    let honest = run_fri_roundtrip(&params, 1024);
    let verifier = FriVerifier::new(&params, test_fri_config());

    let mut other = test_fri_config();
    other.num_queries = 4;
    let v2 = FriVerifier::new(&params, other);
    assert_eq!(v2.try_verify(&honest), Some(VerifyOutcome::ConfigMismatch));

    // one root fewer and a final codeword twice as long: the domain is
    // still 1024 points, but the final size is not the configured one
    let mut p = honest.clone();
    p.roots.pop();
    let extra = p.final_codeword.clone();
    p.final_codeword.extend(extra);
    assert_eq!(verifier.try_verify(&p), Some(VerifyOutcome::FinalSizeMismatch));

    let mut p = honest.clone();
    p.final_codeword[5][2] ^= 9;
    assert_eq!(verifier.try_verify(&p), Some(VerifyOutcome::FinalRootMismatch));

    let mut p = honest.clone();
    p.queries.pop();
    assert_eq!(verifier.try_verify(&p), Some(VerifyOutcome::QueryCountMismatch));

    let mut p = honest.clone();
    p.queries[0].initial_index += 1;
    assert_eq!(verifier.try_verify(&p), Some(VerifyOutcome::QueryRejected));

    let mut p = honest.clone();
    p.queries[1].layers[0].x_eval[0] ^= 42;
    assert_eq!(verifier.try_verify(&p), Some(VerifyOutcome::QueryRejected));
}

#[test]
fn test_fri_verify_query_on_its_own() {
    let params = test_params();
    let config = test_fri_config();
    let proof = run_fri_roundtrip(&params, 1024);
    let verifier = FriVerifier::new(&params, config);
    let mut t = build_transcript_header(&params, &config, 1024);
    let alphas = replay_roots(&mut t, &params, &proof.roots);
    assert_eq!(alphas.len() + 1, proof.roots.len());
    for q in &proof.queries {
        assert!(verifier.verify_query(q, &proof, &alphas));
    }
    // one challenge too few: rejected before any opening is read
    assert!(!verifier.verify_query(&proof.queries[0], &proof, &alphas[1..]));
    assert_eq!(verifier.try_verify_query(&proof.queries[0], &proof, &[]), Some(false));
    // a tampered opening fails its layer check
    let mut bad = proof.queries[0].clone();
    bad.layers[1].neg_x_eval[3] ^= 1;
    assert!(!verifier.verify_query(&bad, &proof, &alphas));
}

#[test]
fn test_fri_verify_query_without_openings() {
    let params = test_params();
    let config = FriConfig {
        num_queries: 1,
        final_codeword_size: 1,
        domain_generator: 7,
        domain_offset: 1,
    };
    let leaf: Digest = [1, 2, 3, 4];
    let proof = FriProof {
        config,
        roots: vec![leaf],
        final_codeword: vec![leaf],
        queries: vec![],
    };
    let verifier = FriVerifier::new(&params, config);
    let at0 = FriQuery { initial_index: 0, layers: vec![] };
    assert!(verifier.verify_query(&at0, &proof, &[]));
    // past the end of the one-entry final codeword: the check cannot run
    let at1 = FriQuery { initial_index: 1, layers: vec![] };
    assert_eq!(verifier.try_verify_query(&at1, &proof, &[]), None);
    // with two final entries and no opening the query is rejected
    let two = FriProof {
        config,
        roots: vec![leaf],
        final_codeword: vec![leaf, leaf],
        queries: vec![],
    };
    assert!(!verifier.verify_query(&at1, &two, &[]));
}
