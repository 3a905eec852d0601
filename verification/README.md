# qingming_zkp_rs

A Goldilocks-field FRI prover and verifier, written in Verus and verified.

## Layout

- `src/field.rs` — arithmetic modulo p = 2^64 - 2^32 + 1 (add, sub, mul,
  square-and-multiply, Fermat inversion), each against its mathematical value.
- `src/poseidon.rs` — the width-12 Poseidon permutation (x^7 S-box, 4 + 22 + 4
  rounds) and the two-to-one hash, against a round-by-round specification.
  The round constants and the MDS matrix are data (`PoseidonParams`).
- `src/merkle.rs` — flat Merkle trees (leaves first, root last), authentication
  paths and their check; `lemma_merkle_opening_complete` proves that every
  extracted path leads from its leaf to the root, and `lemma_buffer_root`
  that a word buffer holding the tree ends in the root.
- `src/transcript.rs` — the Fiat-Shamir transcript, and the replay of the
  commitment phase shared by prover and verifier.
- `src/fri.rs` — configuration and its validation, evaluation domains, the
  folding formula (`lemma_fold_linear`: folding `a + X * b` at `x` and `-x`
  gives `a + alpha * b`), and the proof types with their abstract values.
- `src/prover.rs` — the prover as a sequence of commitment steps; `prove`
  runs them with CPU-built trees, and a caller can run them with trees built
  elsewhere (the GPU driver in `app/` does).
- `src/fri_verifier.rs` — the verifier, with an exact specification of when it
  accepts and of the inputs on which its checks run to the end
  (`try_verify` reports the others, and otherwise which check decided).
- `src/fri_complete.rs` — `lemma_fri_complete`: the verifier accepts every
  proof the prover produces for a codeword that is folded at least once;
  `lemma_fri_complete_invertible` adds that, for a generator and offset
  invertible mod p, neither side comes to a failed internal check.
- `src/ntt.rs` — the radix-2 decimation-in-time NTT and bit reversal.
- `src/ntt_dft.rs` — `lemma_ntt_is_dft`: with a root `omega` of order `n`
  (`omega^(n/2) = -1`), the butterfly network computes the discrete Fourier
  transform `sum_j x[j] * omega^(j * k)`.
- `app/` — the GPU engine (FFI to `libqingming`) and the benchmark driver.
  The Poseidon constants are read from the file named by
  `QINGMING_POSEIDON_CONSTANTS`: 504 little-endian 64-bit words, the 360
  round constants and then the 144 MDS entries.
