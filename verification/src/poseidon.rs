//! The Poseidon permutation over the Goldilocks field (width 12, x^7 S-box,
//! 4 + 22 + 4 rounds) and the two-to-one hash built on it.
use crate::field::{fadd, fpow, gl_add, gl_mul, p};
use vstd::arithmetic::div_mod::*;
use vstd::arithmetic::mul::*;
use vstd::arithmetic::power::*;
use vstd::prelude::*;

verus! {

pub const POSEIDON_STATE_SIZE: usize = 12;

pub const POSEIDON_HALF_FULL_ROUNDS: usize = 4;

pub const POSEIDON_PARTIAL_ROUNDS: usize = 22;

pub const POSEIDON_TOTAL_ROUNDS: usize = 30;

/// Number of round constants: one per state word and round.
pub const POSEIDON_ROUND_CONSTANTS_LEN: usize = 360;

/// Number of entries of the 12 x 12 MDS matrix.
pub const POSEIDON_MDS_LEN: usize = 144;

/// A hash output: four field elements.
pub type Digest = [u64; 4];

/// The constants of the permutation: the round constants, row-major by round
/// (`round_constants[12 * round + i]`), and the MDS matrix, row-major
/// (`mds[12 * row + column]`).
pub struct PoseidonParams {
    round_constants: Vec<u64>,
    mds: Vec<u64>,
}

impl PoseidonParams {
    #[verifier::type_invariant]
    closed spec fn well_sized(self) -> bool {
        &&& self.round_constants.len() == POSEIDON_ROUND_CONSTANTS_LEN
        &&& self.mds.len() == POSEIDON_MDS_LEN
    }

    /// The round constants, flat.
    pub closed spec fn ark(self) -> Seq<u64> {
        self.round_constants@
    }

    /// The MDS matrix, flat and row-major.
    pub closed spec fn mds(self) -> Seq<u64> {
        self.mds@
    }

    /// Builds the constants from their flat forms (360 round constants and
    /// 144 matrix entries).
    pub fn new(round_constants: Vec<u64>, mds: Vec<u64>) -> (res: Self)
        requires
            round_constants.len() == POSEIDON_ROUND_CONSTANTS_LEN,
            mds.len() == POSEIDON_MDS_LEN,
        ensures
            res.ark() == round_constants@,
            res.mds() == mds@,
    {
        PoseidonParams { round_constants, mds }
    }

    /// The round constant for state word `i` of round `round`.
    fn round_constant(&self, round: usize, i: usize) -> (c: u64)
        requires
            round < POSEIDON_TOTAL_ROUNDS,
            i < POSEIDON_STATE_SIZE,
        ensures
            c == self.ark()[12 * round + i],
    {
        proof {
            use_type_invariant(self);
        }
        self.round_constants[12 * round + i]
    }

    /// The MDS matrix entry at `row`, `col`.
    fn mds_entry(&self, row: usize, col: usize) -> (c: u64)
        requires
            row < POSEIDON_STATE_SIZE,
            col < POSEIDON_STATE_SIZE,
        ensures
            c == self.mds()[12 * row + col],
    {
        proof {
            use_type_invariant(self);
        }
        self.mds[12 * row + col]
    }
}

/// `x^7` in the field.
pub open spec fn sbox(x: int) -> u64 {
    fpow(x, 7) as u64
}

/// The state after adding the round constants of `round`.
pub open spec fn add_round_constants_spec(params: PoseidonParams, s: Seq<u64>, round: int) -> Seq<
    u64,
> {
    Seq::new(12, |i: int| fadd(s[i] as int, params.ark()[12 * round + i] as int) as u64)
}

/// The S-box applied to every word.
pub open spec fn sbox_full_spec(s: Seq<u64>) -> Seq<u64> {
    Seq::new(12, |i: int| sbox(s[i] as int))
}

/// The S-box applied to the first word only.
pub open spec fn sbox_partial_spec(s: Seq<u64>) -> Seq<u64> {
    s.update(0, sbox(s[0] as int))
}

/// The integer dot product of the first `n` entries of MDS row `row` with `s`.
pub open spec fn mds_dot(params: PoseidonParams, s: Seq<u64>, row: int, n: nat) -> int
    decreases n,
{
    if n == 0 {
        0
    } else {
        mds_dot(params, s, row, (n - 1) as nat) + params.mds()[12 * row + n - 1] * s[n - 1]
    }
}

/// The state multiplied by the MDS matrix, in the field.
pub open spec fn mds_spec(params: PoseidonParams, s: Seq<u64>) -> Seq<u64> {
    Seq::new(12, |i: int| (mds_dot(params, s, i, 12) % p()) as u64)
}

/// Whether `round` is one of the full rounds (the first four or the last four).
pub open spec fn is_full_round(round: int) -> bool {
    round < POSEIDON_HALF_FULL_ROUNDS || round >= POSEIDON_HALF_FULL_ROUNDS
        + POSEIDON_PARTIAL_ROUNDS
}

/// One round: constants, S-box layer, MDS.
pub open spec fn round_spec(params: PoseidonParams, s: Seq<u64>, round: int) -> Seq<u64> {
    let t = add_round_constants_spec(params, s, round);
    let u = if is_full_round(round) {
        sbox_full_spec(t)
    } else {
        sbox_partial_spec(t)
    };
    mds_spec(params, u)
}

/// The state after the first `n` rounds.
pub open spec fn rounds_spec(params: PoseidonParams, s: Seq<u64>, n: nat) -> Seq<u64>
    decreases n,
{
    if n == 0 {
        s
    } else {
        round_spec(params, rounds_spec(params, s, (n - 1) as nat), n - 1)
    }
}

/// The Poseidon permutation.
pub open spec fn permute_spec(params: PoseidonParams, s: Seq<u64>) -> Seq<u64> {
    rounds_spec(params, s, POSEIDON_TOTAL_ROUNDS as nat)
}

/// The initial state of a two-to-one hash: four zero words, `left`, `right`.
pub open spec fn hash_input(left: Seq<u64>, right: Seq<u64>) -> Seq<u64> {
    Seq::new(
        12,
        |i: int|
            if i < 4 {
                0u64
            } else if i < 8 {
                left[i - 4]
            } else {
                right[i - 8]
            },
    )
}

/// The two-to-one hash: the first four words of the permuted input.
pub open spec fn hash_pair_spec(params: PoseidonParams, left: Seq<u64>, right: Seq<u64>) -> Seq<
    u64,
> {
    permute_spec(params, hash_input(left, right)).subrange(0, 4)
}

/// The two-to-one hash permutes the state whose words 0..4 are zero, words
/// 4..8 are `left` and words 8..12 are `right`, and keeps its first four
/// words.
pub proof fn lemma_hash_layout(params: PoseidonParams, left: Seq<u64>, right: Seq<u64>)
    requires
        left.len() == 4,
        right.len() == 4,
    ensures
        hash_pair_spec(params, left, right) == permute_spec(
            params,
            seq![0u64, 0u64, 0u64, 0u64, left[0], left[1], left[2], left[3], right[0], right[1], right[2], right[3]],
        ).subrange(0, 4),
{
    assert(hash_input(left, right) =~= seq![
        0u64,
        0u64,
        0u64,
        0u64,
        left[0],
        left[1],
        left[2],
        left[3],
        right[0],
        right[1],
        right[2],
        right[3],
    ]);
}

/// `x^7` computed as `x^3 * x^4`.
pub fn poseidon_pow_7(x: u64) -> (r: u64)
    ensures
        r == sbox(x as int),
{
    let x2 = gl_mul(x, x);
    let x3 = gl_mul(x2, x);
    let x4 = gl_mul(x2, x2);
    let r = gl_mul(x3, x4);
    proof {
        let xi = x as int;
        reveal_with_fuel(pow, 8);
        lemma_mul_mod_noop_left(xi * xi, xi, p());
        lemma_mul_mod_noop(xi * xi, xi * xi, p());
        lemma_mul_mod_noop((xi * xi) * xi, (xi * xi) * (xi * xi), p());
        assert(pow(xi, 7) == ((xi * xi) * xi) * ((xi * xi) * (xi * xi))) by (nonlinear_arith)
            requires
                pow(xi, 7) == xi * (xi * (xi * (xi * (xi * (xi * (xi * 1)))))),
        ;
    }
    r
}


/// Adds the round constants of `round` to every word.
fn poseidon_add_round_constants(params: &PoseidonParams, state: &mut [u64; 12], round: usize)
    requires
        round < POSEIDON_TOTAL_ROUNDS,
    ensures
        final(state)@ == add_round_constants_spec(*params, old(state)@, round as int),
{
    let ghost s0 = state@;
    for i in 0..POSEIDON_STATE_SIZE
        invariant
            state@.len() == 12,
            round < POSEIDON_TOTAL_ROUNDS,
            s0.len() == 12,
            forall|j: int| 0 <= j < i ==> state@[j] == add_round_constants_spec(*params, s0, round as int)[j],
            forall|j: int| i <= j < 12 ==> state@[j] == s0[j],
    {
        let c = params.round_constant(round, i);
        state[i] = gl_add(state[i], c);
    }
    assert(state@ =~= add_round_constants_spec(*params, s0, round as int));
}

/// Applies the S-box to every word.
fn poseidon_sbox_full(state: &mut [u64; 12])
    ensures
        final(state)@ == sbox_full_spec(old(state)@),
{
    let ghost s0 = state@;
    for i in 0..POSEIDON_STATE_SIZE
        invariant
            state@.len() == 12,
            s0.len() == 12,
            forall|j: int| 0 <= j < i ==> state@[j] == sbox_full_spec(s0)[j],
            forall|j: int| i <= j < 12 ==> state@[j] == s0[j],
    {
        state[i] = poseidon_pow_7(state[i]);
    }
    assert(state@ =~= sbox_full_spec(s0));
}

/// Applies the S-box to the first word only.
fn poseidon_sbox_partial(state: &mut [u64; 12])
    ensures
        final(state)@ == sbox_partial_spec(old(state)@),
{
    let ghost s0 = state@;
    state[0] = poseidon_pow_7(state[0]);
    assert(state@ =~= sbox_partial_spec(s0));
}

/// Multiplies the state by the MDS matrix.
fn poseidon_mds_multiply(params: &PoseidonParams, state: &mut [u64; 12])
    ensures
        final(state)@ == mds_spec(*params, old(state)@),
{
    let ghost s0 = state@;
    let mut next_state = [0u64; 12];
    for i in 0..POSEIDON_STATE_SIZE
        invariant
            next_state@.len() == 12,
            state@ == s0,
            s0.len() == 12,
            forall|k: int| 0 <= k < i ==> next_state@[k] == mds_spec(*params, s0)[k],
    {
        let mut sum: u64 = 0;
        proof {
            assert(mds_dot(*params, s0, i as int, 0) == 0);
            lemma_small_mod(0, p() as nat);
        }
        for j in 0..POSEIDON_STATE_SIZE
            invariant
                state@ == s0,
                s0.len() == 12,
                i < 12,
                sum == mds_dot(*params, s0, i as int, j as nat) % p(),
        {
            let m = params.mds_entry(i, j);
            let t = gl_mul(m, state[j]);
            proof {
                lemma_add_mod_noop(
                    mds_dot(*params, s0, i as int, j as nat),
                    m as int * s0[j as int] as int,
                    p(),
                );
                lemma_mod_twice(m as int * s0[j as int] as int, p());
                lemma_add_mod_noop(sum as int, t as int, p());
                lemma_mod_twice(mds_dot(*params, s0, i as int, j as nat), p());
            }
            sum = gl_add(sum, t);
        }
        next_state[i] = sum;
    }
    assert(next_state@ =~= mds_spec(*params, s0));
    *state = next_state;
}


/// Applies one round to the state.
fn poseidon_round(params: &PoseidonParams, state: &mut [u64; 12], round: usize, full: bool)
    requires
        round < POSEIDON_TOTAL_ROUNDS,
        full == is_full_round(round as int),
    ensures
        final(state)@ == round_spec(*params, old(state)@, round as int),
{
    poseidon_add_round_constants(params, state, round);
    if full {
        poseidon_sbox_full(state);
    } else {
        poseidon_sbox_partial(state);
    }
    poseidon_mds_multiply(params, state);
}

/// The Poseidon permutation: four full rounds, 22 partial rounds, four full
/// rounds.
pub fn poseidon_permute(params: &PoseidonParams, state: &mut [u64; 12])
    ensures
        final(state)@ == permute_spec(*params, old(state)@),
{
    let ghost s0 = state@;
    let mut round_ctr: usize = 0;
    for _r in 0..POSEIDON_HALF_FULL_ROUNDS
        invariant
            round_ctr == _r,
            state@ == rounds_spec(*params, s0, round_ctr as nat),
    {
        poseidon_round(params, state, round_ctr, true);
        round_ctr += 1;
    }
    for _r in 0..POSEIDON_PARTIAL_ROUNDS
        invariant
            round_ctr == _r + POSEIDON_HALF_FULL_ROUNDS,
            state@ == rounds_spec(*params, s0, round_ctr as nat),
    {
        poseidon_round(params, state, round_ctr, false);
        round_ctr += 1;
    }
    for _r in 0..POSEIDON_HALF_FULL_ROUNDS
        invariant
            round_ctr == _r + POSEIDON_HALF_FULL_ROUNDS + POSEIDON_PARTIAL_ROUNDS,
            state@ == rounds_spec(*params, s0, round_ctr as nat),
    {
        poseidon_round(params, state, round_ctr, true);
        round_ctr += 1;
    }
}

/// Hashes two digests into one.
pub fn poseidon_hash_pair(params: &PoseidonParams, left: &Digest, right: &Digest) -> (r: Digest)
    ensures
        r@ == hash_pair_spec(*params, left@, right@),
        r@ == permute_spec(
            *params,
            seq![0u64, 0u64, 0u64, 0u64, left[0], left[1], left[2], left[3], right[0], right[1], right[2], right[3]],
        ).subrange(0, 4),
{
    proof {
        lemma_hash_layout(*params, left@, right@);
    }
    let mut state = [0u64; 12];
    state[4] = left[0];
    state[5] = left[1];
    state[6] = left[2];
    state[7] = left[3];
    state[8] = right[0];
    state[9] = right[1];
    state[10] = right[2];
    state[11] = right[3];
    assert(state@ =~= hash_input(left@, right@));
    poseidon_permute(params, &mut state);
    let r = [state[0], state[1], state[2], state[3]];
    assert(r@ =~= hash_pair_spec(*params, left@, right@));
    r
}

} // verus!
