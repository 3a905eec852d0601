use qingming_zkp_rs::merkle::{
    build_merkle_root_cpu, build_merkle_tree_cpu, extract_merkle_proof, flatten_digests,
    gpu_root_from_tree_buffer, is_power_of_two, merkle_root_from_tree, unflatten_digests,
    verify_merkle_path, words_to_digests,
};
use qingming_zkp_rs::poseidon::{poseidon_hash_pair, poseidon_permute, poseidon_pow_7, Digest, PoseidonParams};
use qingming_zkp_rs::transcript::Transcript;

/// Fixed Poseidon constants for the tests.
fn test_params() -> PoseidonParams {
    let p = 0xFFFF_FFFF_0000_0001u64;
    let mut ark = Vec::with_capacity(360);
    let mut x: u64 = 0x243F_6A88_85A3_08D3;
    for _ in 0..360 {
        x = x
            .wrapping_mul(6364136223846793005)
            .wrapping_add(1442695040888963407);
        ark.push(x % p);
    }
    let circ = [17u64, 15, 41, 16, 2, 28, 13, 13, 39, 18, 34, 20];
    let mut mds = Vec::with_capacity(144);
    for i in 0..12 {
        for j in 0..12 {
            mds.push(circ[(j + 12 - i) % 12]);
        }
    }
    PoseidonParams::new(ark, mds)
}

fn leaves(n: usize) -> Vec<Digest> {
    (0..n)
        .map(|i| {
            let i = i as u64;
            [i + 11, i * 3 + 7, i * 5 + 13, i * 7 + 17]
        })
        .collect()
}

#[test]
fn test_is_power_of_two_values() {
    assert!(!is_power_of_two(0));
    assert!(is_power_of_two(1));
    assert!(is_power_of_two(2));
    assert!(!is_power_of_two(3));
    assert!(is_power_of_two(1 << 20));
    assert!(!is_power_of_two((1 << 20) + 1));
    assert!(!is_power_of_two(usize::MAX));
}

#[test]
fn test_pow7_value() {
    assert_eq!(poseidon_pow_7(2), 128);
    assert_eq!(poseidon_pow_7(0), 0);
    assert_eq!(poseidon_pow_7(1), 1);
}

#[test]
fn test_permutation_with_zero_constants_keeps_zero() {
    let params = PoseidonParams::new(vec![0; 360], vec![1; 144]);
    let mut state = [0u64; 12];
    poseidon_permute(&params, &mut state);
    assert_eq!(state, [0u64; 12]);
}

#[test]
fn test_hash_pair_changes_with_input() {
    let params = test_params();
    let a = poseidon_hash_pair(&params, &[1, 2, 3, 4], &[5, 6, 7, 8]);
    let b = poseidon_hash_pair(&params, &[1, 2, 3, 4], &[5, 6, 7, 9]);
    let c = poseidon_hash_pair(&params, &[5, 6, 7, 8], &[1, 2, 3, 4]);
    assert_ne!(a, b);
    assert_ne!(a, c);
    assert_eq!(a, poseidon_hash_pair(&params, &[1, 2, 3, 4], &[5, 6, 7, 8]));
}

#[test]
fn test_tree_layout() {
    let params = test_params();
    let l = leaves(4);
    let tree = build_merkle_tree_cpu(&params, &l);
    assert_eq!(tree.len(), 7);
    assert_eq!(&tree[0..4], &l[..]);
    assert_eq!(tree[4], poseidon_hash_pair(&params, &l[0], &l[1]));
    assert_eq!(tree[5], poseidon_hash_pair(&params, &l[2], &l[3]));
    assert_eq!(tree[6], poseidon_hash_pair(&params, &tree[4], &tree[5]));
    assert_eq!(merkle_root_from_tree(&tree), tree[6]);
}

#[test]
fn test_root_only_matches_full_tree() {
    let params = test_params();
    for n in [1usize, 2, 8, 64] {
        let l = leaves(n);
        let tree = build_merkle_tree_cpu(&params, &l);
        assert_eq!(build_merkle_root_cpu(&params, &l), merkle_root_from_tree(&tree));
    }
}

#[test]
fn test_merkle_paths_verify() {
    let params = test_params();
    let n = 16usize;
    let l = leaves(n);
    let tree = build_merkle_tree_cpu(&params, &l);
    let root = merkle_root_from_tree(&tree);
    for i in 0..n {
        let path = extract_merkle_proof(&tree, i, n);
        assert_eq!(path.len(), 4);
        assert!(verify_merkle_path(&params, i, &l[i], &path, &root));
        assert!(!verify_merkle_path(&params, i ^ 1, &l[i], &path, &root));
        let mut bad = path.clone();
        bad[2][0] ^= 1;
        assert!(!verify_merkle_path(&params, i, &l[i], &bad, &root));
    }
}

#[test]
fn test_single_leaf_tree() {
    let params = test_params();
    let l = leaves(1);
    let tree = build_merkle_tree_cpu(&params, &l);
    assert_eq!(tree, l);
    let path = extract_merkle_proof(&tree, 0, 1);
    assert!(path.is_empty());
    assert!(verify_merkle_path(&params, 0, &l[0], &path, &l[0]));
}

#[test]
fn test_flatten_roundtrip() {
    let l = leaves(5);
    let words = flatten_digests(&l);
    assert_eq!(words.len(), 20);
    assert_eq!(&words[4..8], &l[1][..]);
    assert_eq!(unflatten_digests(&words), l);
    assert_eq!(words_to_digests(&words), l);
}

#[test]
fn test_gpu_root_from_tree_buffer_last_words() {
    let buf: Vec<u64> = (0..12).collect();
    assert_eq!(gpu_root_from_tree_buffer(&buf), [8, 9, 10, 11]);
}

#[test]
fn test_transcript_is_deterministic_and_bounded() {
    let params = test_params();
    let mut t1 = Transcript::new(&params);
    let mut t2 = Transcript::new(&params);
    t1.absorb_u64(&params, 99);
    t2.absorb_u64(&params, 99);
    let a = t1.squeeze_digest(&params);
    let b = t2.squeeze_digest(&params);
    assert_eq!(a, b);
    // the counter separates successive squeezes
    assert_ne!(t1.squeeze_digest(&params), a);
    for bound in [1usize, 2, 7, 1000] {
        assert!(t1.squeeze_usize(&params, bound) < bound);
    }
    let f = t1.squeeze_field(&params);
    assert!(f != 0 && f < 0xFFFF_FFFF_0000_0001);
}

#[test]
fn test_extract_proof_odd_domain() {
    // A flat buffer for a domain of 5: layers of 5, 2 and 1 entries, plus one
    // spare slot; the path reads across layer boundaries exactly as indexed.
    let tree: Vec<Digest> = (0..9u64).map(|i| [i, 0, 0, 0]).collect();
    assert_eq!(extract_merkle_proof(&tree, 4, 5), vec![[5, 0, 0, 0], [8, 0, 0, 0]]);
    assert_eq!(extract_merkle_proof(&tree, 1, 5), vec![[0, 0, 0, 0], [6, 0, 0, 0]]);
    assert_eq!(extract_merkle_proof(&tree[..5], 2, 3), vec![[3, 0, 0, 0]]);
}

#[test]
fn test_root_from_flat_tree_buffer_matches_cpu_root() {
    let params = test_params();
    for n in [1usize, 2, 8, 32] {
        let l = leaves(n);
        let tree = build_merkle_tree_cpu(&params, &l);
        let buf = flatten_digests(&tree);
        assert_eq!(buf.len(), 4 * (2 * n - 1));
        let root = build_merkle_root_cpu(&params, &l);
        assert_eq!(gpu_root_from_tree_buffer(&buf), root);
        assert_eq!(merkle_root_from_tree(&words_to_digests(&buf)), root);
    }
}

#[test]
fn test_unflatten_then_flatten_gives_words() {
    let words: Vec<u64> = (0..24u64).map(|i| i * 1_000_003 + 5).collect();
    let ds = unflatten_digests(&words);
    assert_eq!(ds.len(), 6);
    assert_eq!(flatten_digests(&ds), words);
    assert_eq!(flatten_digests(&words_to_digests(&words)), words);
}
