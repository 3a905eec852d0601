//! The FRI verifier.
use crate::field::{finv, gl_inv, HALF_INV};
use crate::fri::{
    config_valid, domain_point, domain_point_of, lemma_pow2_mono, fold_pair, fold_spec, FriConfig,
    FriProof, FriQuery, OpeningModel, ProofModel, QueryModel,
};
use crate::merkle::{
    build_merkle_tree_cpu, digest_eq, fold_path_spec, lemma_tree_last_is_root,
    merkle_root_from_tree, root_spec, verify_merkle_path,
};
use crate::poseidon::{Digest, PoseidonParams};
use crate::prover::header_spec;
use crate::prover::build_transcript_header;
use crate::transcript::{replay_alphas, replay_final, replay_roots, sample_query_indices, sample_spec};
use vstd::arithmetic::div_mod::*;
use vstd::arithmetic::mul::*;
use vstd::arithmetic::power2::{lemma_pow2_pos, lemma_pow2_unfold, pow2};
use vstd::prelude::*;

verus! {

/// The two configurations agree field by field.
pub open spec fn config_matches(a: FriConfig, b: FriConfig) -> bool {
    &&& a.num_queries == b.num_queries
    &&& a.final_codeword_size == b.final_codeword_size
    &&& a.domain_generator == b.domain_generator
    &&& a.domain_offset == b.domain_offset
}

/// The initial domain size that a proof implies: the final codeword's length
/// doubled once per fold, if the proof has a root and the size fits a
/// `usize`.
pub open spec fn derived_initial_size(proof: ProofModel) -> Option<usize> {
    if proof.roots.len() == 0 {
        None
    } else {
        let v = proof.final_codeword.len() * pow2((proof.roots.len() - 1) as nat);
        if v <= usize::MAX {
            Some(v as usize)
        } else {
            None
        }
    }
}

/// The index a query reaches at layer `l` of a domain of `n` points: the
/// initial index, reduced modulo each half-domain on the way.
pub open spec fn query_index_at(n: nat, q0: nat, l: nat) -> nat
    decreases l,
{
    if l == 0 {
        q0
    } else {
        let prev = query_index_at(n, q0, (l - 1) as nat);
        let half = (n / pow2((l - 1) as nat)) / 2;
        if half == 0 {
            prev
        } else {
            prev % half
        }
    }
}

/// One layer opening is consistent: it names the expected layer, domain and
/// indices, and both evaluations open against the layer's root.
pub open spec fn opening_ok(
    params: PoseidonParams,
    proof: ProofModel,
    n: nat,
    l: nat,
    o: OpeningModel,
    cur: nat,
) -> bool {
    let half = o.domain_size / 2;
    &&& o.layer_index == l
    &&& o.domain_size == n / pow2(l)
    &&& half > 0
    &&& o.local_index == cur % (half as nat)
    &&& o.x_index == o.local_index
    &&& o.neg_x_index == o.local_index + half
    &&& fold_path_spec(params, o.x_index as nat, o.x_eval, o.x_proof) == proof.roots[l as int]
    &&& fold_path_spec(params, o.neg_x_index as nat, o.neg_x_eval, o.neg_x_proof)
        == proof.roots[l as int]
}

/// The last check of a query: the fold of the last opened pair equals the
/// final codeword at the index the query reaches; with no layer opened, the
/// final codeword has one entry.
pub open spec fn final_ok(
    config: FriConfig,
    proof: ProofModel,
    alphas: Seq<u64>,
    q: QueryModel,
) -> bool {
    if q.layers.len() > 0 {
        let l = (q.layers.len() - 1) as nat;
        let o = q.layers[l as int];
        proof.final_codeword[o.local_index as int] == fold_spec(
            o.x_eval,
            o.neg_x_eval,
            alphas[l as int] as int,
            HALF_INV as int,
            finv(domain_point(config, l, o.local_index as nat)),
        )
    } else {
        proof.final_codeword.len() == 1 && proof.final_codeword[0] == proof.final_codeword[q.initial_index as int]
    }
}

/// A query is consistent: one opening per challenge, each consistent, and the
/// final check.
pub open spec fn query_ok(
    params: PoseidonParams,
    config: FriConfig,
    proof: ProofModel,
    alphas: Seq<u64>,
    n: nat,
    q: QueryModel,
) -> bool {
    &&& q.layers.len() == alphas.len()
    &&& forall|l: int|
        #![trigger q.layers[l]]
        0 <= l < q.layers.len() ==> opening_ok(
            params,
            proof,
            n,
            l as nat,
            q.layers[l],
            query_index_at(n, q.initial_index as nat, l as nat),
        )
    &&& final_ok(config, proof, alphas, q)
}

/// The checks after the final root: replay the transcript, the query
/// indices must be the sampled ones, and every query must be consistent.
pub open spec fn queries_ok(
    params: PoseidonParams,
    config: FriConfig,
    proof: ProofModel,
    n: nat,
) -> bool {
    let t = header_spec(params, config, n);
    let alphas = replay_alphas(params, t, proof.roots);
    let expected = sample_spec(
        params,
        replay_final(params, t, proof.roots),
        config.num_queries as nat,
        (n / 2) as usize,
    );
    &&& expected.len() == proof.queries.len()
    &&& forall|q: int|
        #![trigger proof.queries[q]]
        0 <= q < proof.queries.len() ==> proof.queries[q].initial_index == expected[q] && query_ok(
            params,
            config,
            proof,
            alphas,
            n,
            proof.queries[q],
        )
}

/// When the verifier for `config` accepts `proof`.
pub open spec fn verify_spec(params: PoseidonParams, config: FriConfig, proof: ProofModel) -> bool {
    &&& proof.roots.len() > 0
    &&& config_matches(proof.config, config)
    &&& derived_initial_size(proof) is Some
    &&& proof.final_codeword.len() == config.final_codeword_size
    &&& root_spec(params, proof.final_codeword) == proof.roots.last()
    &&& queries_ok(params, config, proof, derived_initial_size(proof).unwrap() as nat)
}

/// The openings of the first `m` layers of a query are consistent.
pub open spec fn layers_ok_upto(
    params: PoseidonParams,
    proof: ProofModel,
    n: nat,
    q: QueryModel,
    m: nat,
) -> bool {
    forall|l: int|
        #![trigger q.layers[l]]
        0 <= l < m ==> opening_ok(
            params,
            proof,
            n,
            l as nat,
            q.layers[l],
            query_index_at(n, q.initial_index as nat, l as nat),
        )
}

/// The domain points of the first `m` openings of a query are nonzero.
pub open spec fn points_nonzero_upto(config: FriConfig, q: QueryModel, m: nat) -> bool {
    forall|l: int|
        #![trigger q.layers[l]]
        0 <= l < m ==> domain_point(config, l as nat, q.layers[l].local_index as nat) != 0
}

/// Checking opening `l` of a query panics, once the openings before it have
/// passed: it names layer `l` and the initial domain size cannot be derived;
/// or its shape checks pass and the proof has no root `l`; or its paths also
/// open against that root and its domain point is zero.
pub open spec fn layer_panics(
    params: PoseidonParams,
    config: FriConfig,
    proof: ProofModel,
    q: QueryModel,
    l: nat,
) -> bool {
    let o = q.layers[l as int];
    let n = derived_initial_size(proof).unwrap() as nat;
    let cur = query_index_at(n, q.initial_index as nat, l);
    let half = o.domain_size / 2;
    &&& o.layer_index == l
    &&& (derived_initial_size(proof) is None || {
        &&& o.domain_size == n / pow2(l)
        &&& half > 0
        &&& o.local_index == cur % (half as nat)
        &&& o.x_index == o.local_index
        &&& o.neg_x_index == o.local_index + half
        &&& (l >= proof.roots.len() || {
            &&& fold_path_spec(params, o.x_index as nat, o.x_eval, o.x_proof) == proof.roots[l as int]
            &&& fold_path_spec(params, o.neg_x_index as nat, o.neg_x_eval, o.neg_x_proof)
                == proof.roots[l as int]
            &&& domain_point(config, l, o.local_index as nat) == 0
        })
    })
}

/// The final check of a query reads past the end of the final codeword: at
/// the last opened index, or, with no opening, at the initial index of a
/// one-entry final codeword.
pub open spec fn final_index_fault(proof: ProofModel, q: QueryModel) -> bool {
    if q.layers.len() > 0 {
        q.layers.last().local_index >= proof.final_codeword.len()
    } else {
        proof.final_codeword.len() == 1 && q.initial_index >= 1
    }
}

/// Checking a query panics: it has one opening per challenge, and either
/// some opening panics after every opening before it passed, or every
/// opening passes and the final check reads past the final codeword.
pub open spec fn query_panics(
    params: PoseidonParams,
    config: FriConfig,
    proof: ProofModel,
    alphas: Seq<u64>,
    q: QueryModel,
) -> bool {
    let n = derived_initial_size(proof).unwrap() as nat;
    &&& q.layers.len() == alphas.len()
    &&& {
        ||| exists|l: nat|
            #![trigger layer_panics(params, config, proof, q, l)]
            l < q.layers.len() && layers_ok_upto(params, proof, n, q, l) && points_nonzero_upto(
                config,
                q,
                l,
            ) && layer_panics(params, config, proof, q, l)
        ||| layers_ok_upto(params, proof, n, q, q.layers.len()) && points_nonzero_upto(
            config,
            q,
            q.layers.len(),
        ) && final_index_fault(proof, q)
    }
}

/// A query that passes, with every opened domain point nonzero, does not
/// panic, when there is one challenge per fold and the domain has at least
/// two points.
pub proof fn lemma_passing_query_no_panic(
    params: PoseidonParams,
    config: FriConfig,
    proof: ProofModel,
    alphas: Seq<u64>,
    q: QueryModel,
)
    requires
        derived_initial_size(proof) is Some,
        derived_initial_size(proof).unwrap() >= 2,
        alphas.len() + 1 == proof.roots.len(),
        query_ok(params, config, proof, alphas, derived_initial_size(proof).unwrap() as nat, q),
        points_nonzero_upto(config, q, q.layers.len()),
    ensures
        !query_panics(params, config, proof, alphas, q),
{
    let n = derived_initial_size(proof).unwrap() as nat;
    let r = proof.roots.len();
    let fl = proof.final_codeword.len();
    assert(n == fl * pow2((r - 1) as nat));
    assert forall|l: nat| l < q.layers.len() implies !#[trigger] layer_panics(
        params,
        config,
        proof,
        q,
        l,
    ) by {
        assert(q.layers[l as int] == q.layers[l as int]);
    }
    if q.layers.len() > 0 {
        let l = (q.layers.len() - 1) as nat;
        let o = q.layers[l as int];
        assert(opening_ok(params, proof, n, l, o, query_index_at(n, q.initial_index as nat, l)));
        lemma_pow2_unfold(l + 1);
        lemma_pow2_pos(l);
        assert(n == (fl * 2) * pow2(l)) by (nonlinear_arith)
            requires
                n == fl * pow2(l + 1),
                pow2(l + 1) == 2 * pow2(l),
        ;
        lemma_div_by_multiple((fl * 2) as int, pow2(l) as int);
        assert(o.domain_size == fl * 2);
        assert(o.local_index < fl);
    } else {
        vstd::arithmetic::power2::lemma2_to64();
        assert(n == fl);
    }
}

/// Verifying `proof` panics in a query: every check before the queries
/// passes, and some query whose predecessors all pass panics.
pub open spec fn verify_query_panics(params: PoseidonParams, config: FriConfig, proof: ProofModel) -> bool {
    &&& proof.roots.len() > 0
    &&& config_matches(proof.config, config)
    &&& derived_initial_size(proof) is Some
    &&& proof.final_codeword.len() == config.final_codeword_size
    &&& root_spec(params, proof.final_codeword) == proof.roots.last()
    &&& {
        let n = derived_initial_size(proof).unwrap() as nat;
        let t = header_spec(params, config, n);
        let alphas = replay_alphas(params, t, proof.roots);
        let expected = sample_spec(
            params,
            replay_final(params, t, proof.roots),
            config.num_queries as nat,
            (n / 2) as usize,
        );
        &&& expected.len() == proof.queries.len()
        &&& exists|q: int|
            #![trigger proof.queries[q]]
            0 <= q < proof.queries.len() && (forall|j: int|
                #![trigger proof.queries[j]]
                0 <= j < q ==> proof.queries[j].initial_index == expected[j] && query_ok(
                    params,
                    config,
                    proof,
                    alphas,
                    n,
                    proof.queries[j],
                )) && proof.queries[q].initial_index == expected[q] && query_panics(
                params,
                config,
                proof,
                alphas,
                proof.queries[q],
            )
    }
}

/// What verifying a proof comes to: acceptance, or the first check that
/// fails.
#[derive(Clone, Copy, Debug, PartialEq, Eq, Structural)]
pub enum VerifyOutcome {
    /// Every check passes.
    Accepted,
    /// The proof has no roots.
    EmptyRoots,
    /// The proof names another configuration.
    ConfigMismatch,
    /// The initial domain size the proof implies does not fit a `usize`.
    DomainTooLarge,
    /// The final codeword does not have the configured size.
    FinalSizeMismatch,
    /// The final codeword does not hash to the last root.
    FinalRootMismatch,
    /// The number of queries is not the configured one.
    QueryCountMismatch,
    /// A query names an index other than the sampled one, or fails a check.
    QueryRejected,
}

/// The outcome of verifying `proof`, the checks taken in order.
pub open spec fn verify_outcome(params: PoseidonParams, config: FriConfig, proof: ProofModel) -> VerifyOutcome {
    if proof.roots.len() == 0 {
        VerifyOutcome::EmptyRoots
    } else if !config_matches(proof.config, config) {
        VerifyOutcome::ConfigMismatch
    } else if derived_initial_size(proof) is None {
        VerifyOutcome::DomainTooLarge
    } else if proof.final_codeword.len() != config.final_codeword_size {
        VerifyOutcome::FinalSizeMismatch
    } else if root_spec(params, proof.final_codeword) != proof.roots.last() {
        VerifyOutcome::FinalRootMismatch
    } else {
        let n = derived_initial_size(proof).unwrap() as nat;
        let t = header_spec(params, config, n);
        let expected = sample_spec(
            params,
            replay_final(params, t, proof.roots),
            config.num_queries as nat,
            (n / 2) as usize,
        );
        if expected.len() != proof.queries.len() {
            VerifyOutcome::QueryCountMismatch
        } else if queries_ok(params, config, proof, n) {
            VerifyOutcome::Accepted
        } else {
            VerifyOutcome::QueryRejected
        }
    }
}

/// The proof is accepted exactly when every check passes.
pub proof fn lemma_outcome_accepted(params: PoseidonParams, config: FriConfig, proof: ProofModel)
    ensures
        (verify_outcome(params, config, proof) == VerifyOutcome::Accepted) == verify_spec(
            params,
            config,
            proof,
        ),
{
}

/// An accepted proof that folds at least once has, for every query, the
/// fold of its last opened pair in the final codeword: at the last opened
/// local index sits `fold_spec` of that opening's two evaluations with the
/// challenge after that layer's root, `1/2`, and the inverse of the layer's
/// domain point there.
pub proof fn lemma_accepted_final_is_fold(params: PoseidonParams, config: FriConfig, proof: ProofModel)
    requires
        verify_spec(params, config, proof),
        proof.roots.len() >= 2,
    ensures
        ({
            let n = derived_initial_size(proof).unwrap() as nat;
            let alphas = replay_alphas(params, header_spec(params, config, n), proof.roots);
            forall|q: int|
                #![trigger proof.queries[q]]
                0 <= q < proof.queries.len() ==> {
                    let layers = proof.queries[q].layers;
                    let l = layers.len() - 1;
                    let o = layers[l];
                    &&& layers.len() + 1 == proof.roots.len()
                    &&& o.local_index < proof.final_codeword.len()
                    &&& proof.final_codeword[o.local_index as int] == fold_spec(
                        o.x_eval,
                        o.neg_x_eval,
                        alphas[l] as int,
                        HALF_INV as int,
                        finv(domain_point(config, l as nat, o.local_index as nat)),
                    )
                }
        }),
{
    let n = derived_initial_size(proof).unwrap() as nat;
    let alphas = replay_alphas(params, header_spec(params, config, n), proof.roots);
    let r = proof.roots.len();
    let fl = proof.final_codeword.len();
    assert forall|q: int| 0 <= q < proof.queries.len() implies {
        let layers = (#[trigger] proof.queries[q]).layers;
        let l = layers.len() - 1;
        let o = layers[l];
        &&& layers.len() + 1 == proof.roots.len()
        &&& o.local_index < proof.final_codeword.len()
        &&& proof.final_codeword[o.local_index as int] == fold_spec(
            o.x_eval,
            o.neg_x_eval,
            alphas[l] as int,
            HALF_INV as int,
            finv(domain_point(config, l as nat, o.local_index as nat)),
        )
    } by {
        let qm = proof.queries[q];
        assert(query_ok(params, config, proof, alphas, n, qm));
        let l = (qm.layers.len() - 1) as nat;
        let o = qm.layers[l as int];
        assert(opening_ok(params, proof, n, l, o, query_index_at(n, qm.initial_index as nat, l)));
        lemma_pow2_unfold(l + 1);
        lemma_pow2_pos(l);
        assert(n == fl * pow2((r - 1) as nat));
        assert(n == (fl * 2) * pow2(l)) by (nonlinear_arith)
            requires
                n == fl * pow2(l + 1),
                pow2(l + 1) == 2 * pow2(l),
        ;
        lemma_div_by_multiple((fl * 2) as int, pow2(l) as int);
        assert(o.domain_size == fl * 2);
    }
}

/// The inputs on which the verifier runs to the end without a failed
/// internal check: the final codeword's tree fits in memory; once the
/// proof's shape fixes the initial domain size, the configuration fits it;
/// once the final root matches, the domain has at least two points to sample
/// from; and no query panics (in a run past those checks, only by
/// inverting a zero domain point).
pub open spec fn verify_input_ok(params: PoseidonParams, config: FriConfig, proof: ProofModel) -> bool {
    &&& proof.final_codeword.len() <= usize::MAX / 2
    &&& (proof.roots.len() > 0 && config_matches(proof.config, config) && derived_initial_size(
        proof,
    ) is Some) ==> {
        let n = derived_initial_size(proof).unwrap() as nat;
        &&& config_valid(config, n)
        &&& (proof.final_codeword.len() == config.final_codeword_size && root_spec(
            params,
            proof.final_codeword,
        ) == proof.roots.last()) ==> n >= 2
    }
    &&& !verify_query_panics(params, config, proof)
}

/// An exponent of two that fits a `usize` is below its bit width.
proof fn lemma_exponent_below_bits(c: nat, k: nat)
    requires
        c >= 1,
        c * pow2(k) <= usize::MAX,
    ensures
        k < usize::BITS,
        k < 64,
{
    vstd::arithmetic::power2::lemma2_to64();
    vstd::arithmetic::power2::lemma2_to64_rest();
    lemma_mul_inequality(1, c as int, pow2(k) as int);
    if k >= usize::BITS {
        lemma_pow2_mono(usize::BITS as nat, k);
        assert(usize::BITS == 32 || usize::BITS == 64);
        assert(pow2(usize::BITS as nat) > usize::MAX);
    }
}

/// The FRI verifier for one configuration and one set of Poseidon constants.
pub struct FriVerifier<'a> {
    params: &'a PoseidonParams,
    config: FriConfig,
}

impl<'a> FriVerifier<'a> {
    /// The Poseidon constants the verifier hashes with.
    pub closed spec fn params(&self) -> PoseidonParams {
        *self.params
    }

    /// The verifier's configuration.
    pub closed spec fn config(&self) -> FriConfig {
        self.config
    }

    /// A verifier for `config` that hashes with `params`.
    pub fn new(params: &'a PoseidonParams, config: FriConfig) -> (verifier: Self)
        ensures
            verifier.params() == *params,
            verifier.config() == config,
    {
        FriVerifier { params, config }
    }

    /// The initial domain size the proof implies (see
    /// `derived_initial_size`).
    fn derive_initial_domain_size(&self, proof: &FriProof) -> (n: Option<usize>)
        ensures
            n == derived_initial_size(proof@),
    {
        if proof.roots.len() == 0 {
            return None;
        }
        let folds = proof.roots.len() - 1;
        let fl = proof.final_codeword.len();
        let mut size = fl;
        let mut i: usize = 0;
        proof {
            vstd::arithmetic::power2::lemma2_to64();
        }
        while i < folds
            invariant
                folds == proof.roots@.len() - 1,
                fl == proof.final_codeword@.len(),
                i <= folds,
                size == fl * pow2(i as nat),
            decreases folds - i,
        {
            proof {
                lemma_pow2_unfold((i + 1) as nat);
                assert(size * 2 == fl * pow2((i + 1) as nat)) by (nonlinear_arith)
                    requires
                        size == fl * pow2(i as nat),
                        pow2((i + 1) as nat) == 2 * pow2(i as nat),
                ;
            }
            match size.checked_mul(2) {
                Some(s) => {
                    size = s;
                },
                None => {
                    proof {
                        lemma_pow2_mono((i + 1) as nat, folds as nat);
                        lemma_mul_inequality(
                            pow2((i + 1) as nat) as int,
                            pow2(folds as nat) as int,
                            fl as int,
                        );
                        lemma_mul_is_commutative(fl as int, pow2((i + 1) as nat) as int);
                        lemma_mul_is_commutative(fl as int, pow2(folds as nat) as int);
                        assert(fl * pow2(folds as nat) > usize::MAX);
                    }
                    return None;
                },
            }
            i += 1;
        }
        Some(size)
    }

    /// Checks a FRI proof: the configuration it names, the final codeword
    /// against the last root, the query indices against the replayed
    /// transcript, and every query.
    pub fn verify(&self, proof: &FriProof) -> (ok: bool)
        requires
            verify_input_ok(self.params(), self.config(), proof@),
        ensures
            ok == verify_spec(self.params(), self.config(), proof@),
    {
        proof {
            lemma_outcome_accepted(self.params(), self.config(), proof@);
        }
        match self.try_verify(proof) {
            Some(VerifyOutcome::Accepted) => true,
            _ => false,
        }
    }

    /// Runs the checks of `verify` on any input: `None` where the input
    /// condition of `verify` fails (the configuration does not fit the
    /// domain, the sample range is empty, or a query comes to invert zero),
    /// else the acceptance or the first check that fails.
    pub fn try_verify(&self, proof: &FriProof) -> (r: Option<VerifyOutcome>)
        ensures
            (r is Some) == verify_input_ok(self.params(), self.config(), proof@),
            r matches Some(o) ==> o == verify_outcome(self.params(), self.config(), proof@),
    {
        let ghost pm = proof@;
        if proof.final_codeword.len() > usize::MAX / 2 {
            return None;
        }
        if proof.roots.len() == 0 {
            return Some(VerifyOutcome::EmptyRoots);
        }
        if !(proof.config.num_queries == self.config.num_queries
            && proof.config.final_codeword_size == self.config.final_codeword_size
            && proof.config.domain_generator == self.config.domain_generator
            && proof.config.domain_offset == self.config.domain_offset) {
            return Some(VerifyOutcome::ConfigMismatch);
        }
        let initial_domain_size = match self.derive_initial_domain_size(proof) {
            Some(v) => v,
            None => {
                return Some(VerifyOutcome::DomainTooLarge);
            },
        };
        match self.config.check(initial_domain_size) {
            Ok(()) => {},
            Err(_) => {
                return None;
            },
        }
        if proof.final_codeword.len() != self.config.final_codeword_size {
            return Some(VerifyOutcome::FinalSizeMismatch);
        }
        proof {
            crate::merkle::lemma_tree_len(*self.params, pm.final_codeword);
        }
        let final_tree = build_merkle_tree_cpu(self.params, &proof.final_codeword);
        let final_root = merkle_root_from_tree(&final_tree);
        let claimed_final_root = proof.roots[proof.roots.len() - 1];
        proof {
            lemma_tree_last_is_root(*self.params, pm.final_codeword);
        }
        if !digest_eq(&final_root, &claimed_final_root) {
            return Some(VerifyOutcome::FinalRootMismatch);
        }
        if initial_domain_size < 2 {
            return None;
        }
        let mut transcript = build_transcript_header(self.params, &self.config, initial_domain_size);
        let alphas = replay_roots(&mut transcript, self.params, &proof.roots);
        let expected_query_indices = sample_query_indices(
            &mut transcript,
            self.params,
            self.config.num_queries,
            initial_domain_size / 2,
        );
        proof {
            let t = header_spec(*self.params, self.config, initial_domain_size as nat);
            assert(expected_query_indices@ == sample_spec(
                *self.params,
                replay_final(*self.params, t, pm.roots),
                self.config.num_queries as nat,
                (initial_domain_size / 2) as usize,
            ));
            assert(derived_initial_size(pm).unwrap() == initial_domain_size);
        }
        if expected_query_indices.len() != proof.queries.len() {
            return Some(VerifyOutcome::QueryCountMismatch);
        }
        let nq = proof.queries.len();
        let ghost n = initial_domain_size as nat;
        let ghost expected = expected_query_indices@;
        for q in 0..nq
            invariant
                pm == proof@,
                nq == pm.queries.len(),
                expected == expected_query_indices@,
                expected == sample_spec(
                    *self.params,
                    replay_final(*self.params, header_spec(*self.params, self.config, n), pm.roots),
                    self.config.num_queries as nat,
                    (n / 2) as usize,
                ),
                expected.len() == nq,
                n == derived_initial_size(pm).unwrap(),
                derived_initial_size(pm) is Some,
                n >= 2,
                alphas@ == replay_alphas(*self.params, header_spec(*self.params, self.config, n), pm.roots),
                alphas@.len() + 1 == pm.roots.len(),
                pm.final_codeword.len() >= 1,
                pm.final_codeword.len() <= usize::MAX / 2,
                pm.final_codeword.len() == self.config.final_codeword_size,
                root_spec(*self.params, pm.final_codeword) == pm.roots.last(),
                config_valid(self.config(), n),
                pm.roots.len() > 0,
                config_matches(pm.config, self.config),
                forall|j: int|
                    #![trigger pm.queries[j]]
                    0 <= j < q ==> pm.queries[j].initial_index == expected[j] && query_ok(
                        *self.params,
                        self.config,
                        pm,
                        alphas@,
                        n,
                        pm.queries[j],
                    ) && !query_panics(*self.params, self.config, pm, alphas@, pm.queries[j]),
        {
            let query = &proof.queries[q];
            assert(pm.queries[q as int] == query@);
            if query.initial_index != expected_query_indices[q] {
                return Some(VerifyOutcome::QueryRejected);
            }
            match self.try_verify_query(query, proof, alphas.as_slice()) {
                Some(true) => {},
                Some(false) => {
                    return Some(VerifyOutcome::QueryRejected);
                },
                None => {
                    assert(verify_query_panics(self.params(), self.config(), pm));
                    return None;
                },
            }
        }
        Some(VerifyOutcome::Accepted)
    }

    /// The domain size of layer `layer_idx`: the initial size halved
    /// `layer_idx` times.
    fn derive_layer_domain_size(&self, proof: &FriProof, layer_idx: usize) -> (size: usize)
        requires
            derived_initial_size(proof@) is Some,
            layer_idx < usize::BITS,
        ensures
            size == (derived_initial_size(proof@).unwrap() as nat) / pow2(layer_idx as nat),
    {
        let n = self.derive_initial_domain_size(proof).unwrap();
        proof {
            vstd::bits::lemma_usize_shr_is_div(n, layer_idx);
        }
        n >> layer_idx
    }

    /// Checks one query against the proof's roots, the challenges and the
    /// final codeword.
    pub fn verify_query(&self, query: &FriQuery, proof: &FriProof, alphas: &[u64]) -> (ok: bool)
        requires
            !query_panics(self.params(), self.config(), proof@, alphas@, query@),
        ensures
            ok == query_ok(
                self.params(),
                self.config(),
                proof@,
                alphas@,
                derived_initial_size(proof@).unwrap() as nat,
                query@,
            ),
    {
        match self.try_verify_query(query, proof, alphas) {
            Some(ok) => ok,
            None => false,
        }
    }

    /// Runs the checks of `verify_query` on any input: `None` where they
    /// panic (see `query_panics`), else whether the query passes.
    pub fn try_verify_query(&self, query: &FriQuery, proof: &FriProof, alphas: &[u64]) -> (r: Option<
        bool,
    >)
        ensures
            (r is None) == query_panics(self.params(), self.config(), proof@, alphas@, query@),
            r matches Some(ok) ==> ok == query_ok(
                self.params(),
                self.config(),
                proof@,
                alphas@,
                derived_initial_size(proof@).unwrap() as nat,
                query@,
            ),
    {
        let ghost n = derived_initial_size(proof@).unwrap() as nat;
        let ghost pm = proof@;
        let ghost qm = query@;
        if query.layers.len() != alphas.len() {
            return Some(false);
        }
        let nl = query.layers.len();
        let mut current_idx = query.initial_index;
        let mut expected_next_value: Option<Digest> = None;
        for layer_idx in 0..nl
            invariant
                nl == query.layers@.len(),
                nl == alphas@.len(),
                qm == query@,
                pm == proof@,
                n == derived_initial_size(proof@).unwrap() as nat,
                layer_idx > 0 ==> derived_initial_size(pm) is Some && pow2(layer_idx as nat) <= n,
                layer_idx <= pm.roots.len(),
                points_nonzero_upto(self.config(), qm, layer_idx as nat),
                layers_ok_upto(self.params(), pm, n, qm, layer_idx as nat),
                forall|l: nat|
                    #![trigger layer_panics(self.params(), self.config(), pm, qm, l)]
                    l < layer_idx ==> !layer_panics(self.params(), self.config(), pm, qm, l),
                current_idx == query_index_at(n, query.initial_index as nat, layer_idx as nat),
                layer_idx == 0 ==> expected_next_value is None,
                layer_idx > 0 ==> {
                    let o = qm.layers[layer_idx - 1];
                    &&& expected_next_value is Some
                    &&& current_idx == o.local_index
                    &&& expected_next_value.unwrap()@ == fold_spec(
                        o.x_eval,
                        o.neg_x_eval,
                        alphas@[layer_idx - 1] as int,
                        HALF_INV as int,
                        finv(domain_point(self.config(), (layer_idx - 1) as nat, o.local_index as nat)),
                    )
                },
        {
            let opening = &query.layers[layer_idx];
            assert(qm.layers[layer_idx as int] == opening@);
            let ghost l = layer_idx as nat;
            if opening.layer_index != layer_idx {
                assert(!layer_panics(self.params(), self.config(), pm, qm, l));
                return Some(false);
            }
            let initial = self.derive_initial_domain_size(proof);
            if initial.is_none() {
                assert(layer_panics(self.params(), self.config(), pm, qm, l));
                return None;
            }
            proof {
                lemma_pow2_pos(l);
                if layer_idx > 0 {
                    lemma_exponent_below_bits(1, l);
                }
            }
            let expected_domain_size = self.derive_layer_domain_size(proof, layer_idx);
            if opening.domain_size != expected_domain_size {
                assert(!layer_panics(self.params(), self.config(), pm, qm, l));
                return Some(false);
            }
            let half = opening.domain_size / 2;
            if half == 0 {
                assert(!layer_panics(self.params(), self.config(), pm, qm, l));
                return Some(false);
            }
            let local_index = current_idx % half;
            if opening.local_index != local_index {
                assert(!layer_panics(self.params(), self.config(), pm, qm, l));
                return Some(false);
            }
            if opening.x_index != local_index {
                assert(!layer_panics(self.params(), self.config(), pm, qm, l));
                return Some(false);
            }
            if opening.neg_x_index != local_index + half {
                assert(!layer_panics(self.params(), self.config(), pm, qm, l));
                return Some(false);
            }
            if layer_idx >= proof.roots.len() {
                assert(layer_panics(self.params(), self.config(), pm, qm, l));
                return None;
            }
            let root = &proof.roots[layer_idx];
            assert(pm.roots[layer_idx as int] == root@);
            if !verify_merkle_path(
                self.params,
                opening.x_index,
                &opening.x_eval,
                &opening.x_proof,
                root,
            ) {
                assert(!layer_panics(self.params(), self.config(), pm, qm, l));
                return Some(false);
            }
            if !verify_merkle_path(
                self.params,
                opening.neg_x_index,
                &opening.neg_x_eval,
                &opening.neg_x_proof,
                root,
            ) {
                assert(!layer_panics(self.params(), self.config(), pm, qm, l));
                return Some(false);
            }
            proof {
                vstd::arithmetic::power2::lemma_pow2_unfold(l + 1);
                lemma_div_denominator(n as int, pow2(l) as int, 2);
                lemma_mul_is_commutative(pow2(l) as int, 2);
                assert(local_index < n / pow2(l + 1));
                lemma_pow2_pos(l + 1);
                lemma_fundamental_div_mod(n as int, pow2(l + 1) as int);
                assert(pow2(l + 1) <= n) by (nonlinear_arith)
                    requires
                        n / pow2(l + 1) >= 1,
                        pow2(l + 1) > 0,
                        n == pow2(l + 1) * (n / pow2(l + 1)) + n % pow2(l + 1),
                        n % pow2(l + 1) >= 0,
                ;
                assert(opening_ok(self.params(), pm, n, l, qm.layers[layer_idx as int], current_idx as nat));
            }
            let x = domain_point_of(&self.config, layer_idx, local_index);
            if x == 0 {
                assert(layer_panics(self.params(), self.config(), pm, qm, l));
                return None;
            }
            assert(!layer_panics(self.params(), self.config(), pm, qm, l));
            let x_inv = gl_inv(x);
            let folded = fold_pair(
                &opening.x_eval,
                &opening.neg_x_eval,
                alphas[layer_idx],
                HALF_INV,
                x_inv,
            );
            expected_next_value = Some(folded);
            current_idx = local_index;
        }
        match expected_next_value {
            Some(v) => {
                if current_idx >= proof.final_codeword.len() {
                    return None;
                }
                let f = proof.final_codeword[current_idx];
                Some(digest_eq(&f, &v))
            },
            None => {
                if proof.final_codeword.len() != 1 {
                    return Some(false);
                }
                if current_idx >= 1 {
                    return None;
                }
                let f0 = proof.final_codeword[0];
                let fc = proof.final_codeword[current_idx];
                Some(digest_eq(&f0, &fc))
            },
        }
    }
}

} // verus!
