//! The FRI prover. Committing is a sequence of steps, one per layer: the
//! caller hands in the Merkle tree over the current codeword (built here on
//! the CPU by `prove`, or by any other means by a caller that drives the
//! steps itself), the step absorbs its root and folds the codeword.
use crate::field::{finv, gl_inv, gl_mul, p, HALF_INV};
use crate::fri::{
    config_valid, fold_pair, fold_spec, layer_generator, layer_offset, layer_params,
    lemma_x_inv_step, prover_x_inv, FriConfig, FriLayerOpening, FriProof, FriQuery,
    OpeningModel, ProofModel, QueryModel, openings_view, queries_view,
};
use crate::merkle::{
    build_merkle_tree_cpu, copy_digests, lemma_unflatten_flatten, digests, extract_merkle_proof, flatten_digests,
    is_pow2, merkle_root_from_tree, path_spec, tree_spec, unflatten_digests,
    unflatten_spec,
};
use crate::poseidon::{Digest, PoseidonParams};
use crate::transcript::{
    field_of, replay_final, replay_roots, sample_query_indices, sample_spec, t_absorb,
    t_absorb_u64, t_squeeze, t_squeeze_out, t_start, Transcript, TranscriptModel,
};
use vstd::arithmetic::div_mod::*;
use vstd::arithmetic::mul::*;
use vstd::arithmetic::power2::{lemma_pow2_pos, lemma_pow2_unfold, pow2};
use vstd::prelude::*;

verus! {

/// The transcript header: a fresh transcript that has absorbed the initial
/// domain size and the configuration.
pub open spec fn header_spec(params: PoseidonParams, config: FriConfig, n: nat) -> TranscriptModel {
    let t0 = t_start(params);
    let t1 = t_absorb_u64(params, t0, n as u64);
    let t2 = t_absorb_u64(params, t1, config.final_codeword_size as u64);
    let t3 = t_absorb_u64(params, t2, config.num_queries as u64);
    let t4 = t_absorb_u64(params, t3, config.domain_generator);
    t_absorb_u64(params, t4, config.domain_offset)
}

/// Builds the transcript header.
pub fn build_transcript_header(
    params: &PoseidonParams,
    config: &FriConfig,
    initial_domain_size: usize,
) -> (t: Transcript)
    ensures
        t@ == header_spec(*params, *config, initial_domain_size as nat),
{
    let mut t = Transcript::new(params);
    t.absorb_u64(params, initial_domain_size as u64);
    t.absorb_u64(params, config.final_codeword_size as u64);
    t.absorb_u64(params, config.num_queries as u64);
    t.absorb_u64(params, config.domain_generator);
    t.absorb_u64(params, config.domain_offset);
    t
}

/// A committed layer: its codeword and the Merkle tree over it.
pub struct LayerModel {
    pub codeword: Seq<Seq<u64>>,
    pub tree: Seq<Seq<u64>>,
}

/// The prover between layers: the layers committed so far, the codeword to
/// commit next (after the last layer: the final codeword), the transcript,
/// and whether the final layer has been committed.
pub struct FoldModel {
    pub layers: Seq<LayerModel>,
    pub current: Seq<Seq<u64>>,
    pub transcript: TranscriptModel,
    pub finished: bool,
}

/// The codeword that folding `c` with challenge `alpha` at layer `k` gives:
/// entry `i` folds `c[i]` and `c[i + n/2]`, which sit at `x` and `-x`.
pub open spec fn fold_codeword(config: FriConfig, c: Seq<Seq<u64>>, alpha: u64, k: nat) -> Seq<
    Seq<u64>,
> {
    Seq::new(
        c.len() / 2,
        |i: int|
            fold_spec(
                c[i],
                c[i + c.len() / 2],
                alpha as int,
                HALF_INV as int,
                prover_x_inv(config, k, i as nat),
            ),
    )
}

/// The prover before the first layer.
pub open spec fn init_model(params: PoseidonParams, config: FriConfig, c: Seq<Seq<u64>>) -> FoldModel {
    FoldModel {
        layers: seq![],
        current: c,
        transcript: header_spec(params, config, c.len()),
        finished: false,
    }
}

/// One commitment step with the given tree over the current codeword:
/// record the layer, absorb the tree's root; then, unless the codeword has
/// reached the final size, squeeze a challenge and fold.
pub open spec fn step_model(
    params: PoseidonParams,
    config: FriConfig,
    m: FoldModel,
    tree: Seq<Seq<u64>>,
) -> FoldModel {
    let layers = m.layers.push(LayerModel { codeword: m.current, tree });
    let t1 = t_absorb(params, m.transcript, tree.last());
    if m.current.len() == config.final_codeword_size {
        FoldModel { layers, current: m.current, transcript: t1, finished: true }
    } else {
        let alpha = field_of(t_squeeze_out(params, t1));
        FoldModel {
            layers,
            current: fold_codeword(config, m.current, alpha, m.layers.len()),
            transcript: t_squeeze(params, t1),
            finished: false,
        }
    }
}

/// Commits every remaining layer, each with the tree the CPU builds.
pub open spec fn commit_from(params: PoseidonParams, config: FriConfig, m: FoldModel) -> FoldModel
    decreases m.current.len(),
{
    if m.finished || m.current.len() == 0 {
        m
    } else {
        let m2 = step_model(params, config, m, tree_spec(params, m.current));
        if m2.finished {
            m2
        } else {
            commit_from(params, config, m2)
        }
    }
}

/// The root of each committed layer.
pub open spec fn roots_of(layers: Seq<LayerModel>) -> Seq<Seq<u64>> {
    layers.map_values(|l: LayerModel| l.tree.last())
}

/// The opening of layer `k` at the index `cur` carries over from the layer
/// above.
pub open spec fn opening_at(k: nat, layer: LayerModel, cur: nat) -> OpeningModel {
    let len = layer.codeword.len();
    let half = len / 2;
    let local = cur % half;
    OpeningModel {
        layer_index: k as usize,
        domain_size: len as usize,
        local_index: local as usize,
        x_index: local as usize,
        x_eval: layer.codeword[local as int],
        x_proof: path_spec(layer.tree, local, len, 0),
        neg_x_index: (local + half) as usize,
        neg_x_eval: layer.codeword[(local + half) as int],
        neg_x_proof: path_spec(layer.tree, local + half, len, 0),
    }
}

/// The openings of the layers from `k` on, for the index `cur`, up to the
/// layer of final size.
pub open spec fn open_from(config: FriConfig, layers: Seq<LayerModel>, k: nat, cur: nat) -> Seq<
    OpeningModel,
>
    decreases layers.len() - k,
{
    if k >= layers.len() || layers[k as int].codeword.len() == config.final_codeword_size
        || layers[k as int].codeword.len() < 2 {
        seq![]
    } else {
        let half = layers[k as int].codeword.len() / 2;
        seq![opening_at(k, layers[k as int], cur)] + open_from(
            config,
            layers,
            k + 1,
            cur % half,
        )
    }
}

/// The proof that a finished prover gives for an initial domain of `n`
/// points: the roots, the final codeword, and the queries that the replayed
/// transcript samples, each opened on every layer.
pub open spec fn finish_spec(params: PoseidonParams, config: FriConfig, m: FoldModel, n: nat) -> ProofModel {
    let roots = roots_of(m.layers);
    let t = replay_final(params, header_spec(params, config, n), roots);
    let qs = sample_spec(params, t, config.num_queries as nat, (n / 2) as usize);
    ProofModel {
        config,
        roots,
        final_codeword: m.current,
        queries: Seq::new(
            qs.len(),
            |q: int|
                QueryModel {
                    initial_index: qs[q],
                    layers: open_from(config, m.layers, 0, qs[q] as nat),
                },
        ),
    }
}

/// The proof that `prove` gives for the initial codeword `c`.
pub open spec fn prove_spec(params: PoseidonParams, config: FriConfig, c: Seq<Seq<u64>>) -> ProofModel {
    finish_spec(params, config, commit_from(params, config, init_model(params, config, c)), c.len())
}

/// Every layer that gets folded has an invertible generator and offset.
pub open spec fn prover_inverses_exist(config: FriConfig, n: nat) -> bool {
    forall|k: nat|
        #![trigger layer_generator(config, k)]
        config.final_codeword_size * pow2(k) < n ==> layer_generator(config, k) != 0
            && layer_offset(config, k) != 0
}

/// The number of folds done so far.
pub open spec fn folds(m: FoldModel) -> nat {
    if m.finished && m.layers.len() > 0 {
        (m.layers.len() - 1) as nat
    } else {
        m.layers.len()
    }
}

/// The invariant of the prover between layers, for an initial domain of `n`
/// points.
pub open spec fn model_wf(config: FriConfig, n: nat, m: FoldModel) -> bool {
    &&& config_valid(config, n)
    &&& n <= usize::MAX / 4
    &&& m.current.len() * pow2(folds(m)) == n
    &&& is_pow2(m.current.len())
    &&& config.final_codeword_size <= m.current.len()
    &&& m.finished ==> {
        &&& m.current.len() == config.final_codeword_size
        &&& m.layers.len() > 0
        &&& m.layers.last().codeword == m.current
    }
    &&& forall|k: int|
        #![trigger m.layers[k]]
        0 <= k < m.layers.len() ==> {
            &&& m.layers[k].tree.len() == 2 * m.layers[k].codeword.len() - 1
            &&& is_pow2(m.layers[k].codeword.len())
            &&& m.layers[k].codeword.len() * pow2(k as nat) == n
            &&& (k + 1 < m.layers.len() || !m.finished) ==> m.layers[k].codeword.len()
                > config.final_codeword_size
        }
}

/// A committed layer, as the prover keeps it.
struct ProverLayer {
    domain_size: usize,
    codeword: Vec<Digest>,
    tree: Vec<Digest>,
    root: Digest,
}

impl ProverLayer {
    spec fn model(&self) -> LayerModel {
        LayerModel { codeword: digests(self.codeword@), tree: digests(self.tree@) }
    }

    spec fn wf(&self) -> bool {
        &&& self.domain_size == self.codeword@.len()
        &&& self.tree@.len() > 0
        &&& self.root == self.tree@.last()
    }
}

spec fn layers_model(layers: Seq<ProverLayer>) -> Seq<LayerModel> {
    layers.map_values(|l: ProverLayer| l.model())
}

/// The prover's state between commitment steps.
pub struct FriFoldState {
    initial_domain_size: usize,
    layers: Vec<ProverLayer>,
    current: Vec<Digest>,
    transcript: Transcript,
    finished: bool,
}

impl View for FriFoldState {
    type V = FoldModel;

    closed spec fn view(&self) -> FoldModel {
        FoldModel {
            layers: layers_model(self.layers@),
            current: digests(self.current@),
            transcript: self.transcript@,
            finished: self.finished,
        }
    }
}

impl FriFoldState {
    /// The number of points of the initial domain.
    pub closed spec fn initial_size(&self) -> nat {
        self.initial_domain_size as nat
    }

    /// The state is one that the prover for `config` reaches.
    pub closed spec fn wf(&self, config: FriConfig) -> bool {
        &&& model_wf(config, self.initial_domain_size as nat, self@)
        &&& forall|k: int| 0 <= k < self.layers@.len() ==> #[trigger] self.layers@[k].wf()
    }

    /// Whether the final layer has been committed.
    pub fn is_finished(&self) -> (r: bool)
        ensures
            r == self@.finished,
    {
        self.finished
    }

    /// The codeword to commit next, as flat words.
    pub fn current_codeword_flat(&self) -> (words: Vec<u64>)
        requires
            self@.current.len() * 4 <= usize::MAX,
        ensures
            words@.len() == 4 * self@.current.len(),
            unflatten_spec(words@) == self@.current,
    {
        proof {
            lemma_unflatten_flatten(self.current@);
        }
        flatten_digests(&self.current)
    }

    /// The number of points of the codeword to commit next.
    pub fn current_domain_size(&self) -> (n: usize)
        ensures
            n == self@.current.len(),
    {
        self.current.len()
    }
}

/// Folds the codeword of layer `layer_index` with challenge `alpha`.
fn fold_layer(config: &FriConfig, codeword: &Vec<Digest>, alpha: u64, layer_index: usize) -> (next:
    Vec<Digest>)
    requires
        layer_index < 64,
        layer_generator(*config, layer_index as nat) != 0,
        layer_offset(*config, layer_index as nat) != 0,
    ensures
        digests(next@) == fold_codeword(*config, digests(codeword@), alpha, layer_index as nat),
{
    let ghost c = digests(codeword@);
    let ghost k = layer_index as nat;
    let n = codeword.len();
    let next_domain_size = n / 2;
    let (omega_k, offset_k) = layer_params(config, layer_index);
    let omega_k_inv = gl_inv(omega_k);
    let mut current_x_inv = gl_inv(offset_k);
    let mut next: Vec<Digest> = Vec::with_capacity(next_domain_size);
    proof {
        assert(prover_x_inv(*config, k, 0) == current_x_inv) by {
            vstd::arithmetic::power::lemma_pow0(finv(layer_generator(*config, k)));
            lemma_small_mod(1, p() as nat);
            lemma_small_mod(current_x_inv as nat, p() as nat);
        }
    }
    for i in 0..next_domain_size
        invariant
            n == codeword@.len(),
            next_domain_size == n / 2,
            c == digests(codeword@),
            omega_k_inv == finv(layer_generator(*config, k)),
            current_x_inv == prover_x_inv(*config, k, i as nat),
            digests(next@) =~= fold_codeword(*config, c, alpha, k).take(i as int),
    {
        let f_x = codeword[i];
        let f_neg_x = codeword[i + next_domain_size];
        let folded = fold_pair(&f_x, &f_neg_x, alpha, HALF_INV, current_x_inv);
        let ghost before = next@;
        next.push(folded);
        proof {
            assert(digests(next@) =~= digests(before).push(folded@));
            assert(fold_codeword(*config, c, alpha, k).take(i as int).push(folded@)
                =~= fold_codeword(*config, c, alpha, k).take(i + 1));
            lemma_x_inv_step(*config, k, i as nat);
        }
        current_x_inv = gl_mul(current_x_inv, omega_k_inv);
    }
    assert(fold_codeword(*config, c, alpha, k).take(next_domain_size as int) =~= fold_codeword(
        *config,
        c,
        alpha,
        k,
    ));
    next
}


/// Of two powers of two, the smaller is at most half the larger.
pub proof fn lemma_pow2_at_most_half(a: nat, b: nat)
    requires
        is_pow2(a),
        is_pow2(b),
        a < b,
    ensures
        b % 2 == 0,
        is_pow2(b / 2),
        a <= b / 2,
    decreases b,
{
    if a > 1 {
        lemma_pow2_at_most_half(a / 2, b / 2);
    }
}

/// A power of two that `usize` holds has an exponent below 64.
pub proof fn lemma_exponent_small(c: nat, k: nat, n: nat)
    requires
        c >= 1,
        c * pow2(k) == n,
        n <= usize::MAX,
    ensures
        k < 64,
{
    if k >= 64 {
        vstd::arithmetic::power2::lemma2_to64_rest();
        if k > 64 {
            vstd::arithmetic::power2::lemma_pow2_strictly_increases(64, k);
        }
        lemma_mul_inequality(1, c as int, pow2(k) as int);
        assert(false);
    }
}

/// The current codeword is no longer than the initial one.
proof fn lemma_current_small(config: FriConfig, n: nat, m: FoldModel)
    requires
        model_wf(config, n, m),
    ensures
        m.current.len() <= n,
        m.current.len() <= usize::MAX / 4,
        m.current.len() >= 1,
        folds(m) < 64,
{
    lemma_pow2_pos(folds(m));
    lemma_mul_inequality(1, pow2(folds(m)) as int, m.current.len() as int);
    lemma_mul_is_commutative(pow2(folds(m)) as int, m.current.len() as int);
    lemma_exponent_small(m.current.len(), folds(m), n);
}

/// A commitment step keeps the prover's invariant.
pub proof fn lemma_step_wf(
    params: PoseidonParams,
    config: FriConfig,
    n: nat,
    m: FoldModel,
    tree: Seq<Seq<u64>>,
)
    requires
        model_wf(config, n, m),
        !m.finished,
        tree.len() == 2 * m.current.len() - 1,
    ensures
        model_wf(config, n, step_model(params, config, m, tree)),
{
    let m2 = step_model(params, config, m, tree);
    let len = m.current.len();
    let fin = config.final_codeword_size as nat;
    let li = m.layers.len();
    if len != fin {
        lemma_pow2_at_most_half(fin, len);
        lemma_pow2_unfold(li + 1);
        assert((len / 2) * pow2(li + 1) == n) by (nonlinear_arith)
            requires
                len % 2 == 0,
                pow2(li + 1) == 2 * pow2(li),
                len * pow2(li) == n,
        ;
    }
    assert forall|k: int| 0 <= k < m2.layers.len() implies {
        &&& m2.layers[k].tree.len() == 2 * m2.layers[k].codeword.len() - 1
        &&& is_pow2(m2.layers[k].codeword.len())
        &&& m2.layers[k].codeword.len() * pow2(k as nat) == n
        &&& (k + 1 < m2.layers.len() || !m2.finished) ==> m2.layers[k].codeword.len()
            > config.final_codeword_size
    } by {
        if k < li {
            assert(m2.layers[k] == m.layers[k]);
        }
    }
}

/// The FRI prover for one configuration and one set of Poseidon constants.
pub struct FriProver<'a> {
    params: &'a PoseidonParams,
    config: FriConfig,
}

impl<'a> FriProver<'a> {
    /// The Poseidon constants the prover hashes with.
    pub closed spec fn params(&self) -> PoseidonParams {
        *self.params
    }

    /// The prover's configuration.
    pub closed spec fn config(&self) -> FriConfig {
        self.config
    }

    /// A prover for `config` that hashes with `params`.
    pub fn new(params: &'a PoseidonParams, config: FriConfig) -> (prover: Self)
        ensures
            prover.params() == *params,
            prover.config() == config,
    {
        FriProver { params, config }
    }

    /// The state before the first layer, for an initial codeword given as
    /// flat words (four per evaluation).
    pub fn start(&self, initial_codeword_flat: &[u64]) -> (state: FriFoldState)
        requires
            initial_codeword_flat@.len() % 4 == 0,
            config_valid(self.config(), (initial_codeword_flat@.len() / 4) as nat),
        ensures
            state.wf(self.config()),
            state.initial_size() == initial_codeword_flat@.len() / 4,
            state@ == init_model(self.params(), self.config(), unflatten_spec(initial_codeword_flat@)),
    {
        let n = initial_codeword_flat.len() / 4;
        let current = unflatten_digests(initial_codeword_flat);
        let transcript = build_transcript_header(self.params, &self.config, n);
        let state = FriFoldState {
            initial_domain_size: n,
            layers: Vec::new(),
            current,
            transcript,
            finished: false,
        };
        proof {
            vstd::arithmetic::power2::lemma2_to64();
            assert(layers_model(state.layers@) =~= seq![]);
            assert(state@.current.len() == n);
            assert(state@.current.len() * pow2(0) == n);
            assert(model_wf(self.config, n as nat, state@));
        }
        state
    }

    /// Whether `commit_layer` accepts a tree of `tree_len` nodes in `state`:
    /// the state is not finished, the tree has `2n - 1` nodes for the `n`
    /// points of the current codeword, and, when the codeword is to be
    /// folded, the layer's generator and offset are invertible.
    pub fn can_commit(&self, state: &FriFoldState, tree_len: usize) -> (ok: bool)
        requires
            state.wf(self.config()),
        ensures
            ok == (!state@.finished && tree_len == 2 * state@.current.len() - 1 && (
            state@.current.len() != self.config().final_codeword_size ==> (layer_generator(
                self.config(),
                state@.layers.len(),
            ) != 0 && layer_offset(self.config(), state@.layers.len()) != 0))),
    {
        proof {
            lemma_current_small(self.config, state.initial_domain_size as nat, state@);
        }
        if state.finished {
            return false;
        }
        let n = state.current.len();
        if tree_len != 2 * n - 1 {
            return false;
        }
        if n == self.config.final_codeword_size {
            return true;
        }
        let (omega_k, offset_k) = layer_params(&self.config, state.layers.len());
        omega_k != 0 && offset_k != 0
    }

    /// Commits the current codeword with `tree`, the Merkle tree over it:
    /// records the layer and absorbs the root; then, unless the codeword has
    /// the final size, squeezes a challenge and folds.
    pub fn commit_layer(&self, state: &mut FriFoldState, tree: Vec<Digest>)
        requires
            old(state).wf(self.config()),
            !old(state)@.finished,
            tree@.len() == 2 * old(state)@.current.len() - 1,
            old(state)@.current.len() != self.config().final_codeword_size ==> (layer_generator(
                self.config(),
                old(state)@.layers.len(),
            ) != 0 && layer_offset(self.config(), old(state)@.layers.len()) != 0),
        ensures
            final(state).wf(self.config()),
            final(state).initial_size() == old(state).initial_size(),
            final(state)@ == step_model(self.params(), self.config(), old(state)@, digests(tree@)),
    {
        let ghost m = state@;
        let ghost n = state.initial_domain_size as nat;
        let ghost tm = digests(tree@);
        proof {
            lemma_current_small(self.config, n, m);
        }
        let root = merkle_root_from_tree(&tree);
        let domain = state.current.len();
        let layer_index = state.layers.len();
        state.transcript.absorb_digest(self.params, &root);
        let codeword = copy_digests(&state.current);
        assert(tm.last() == root@);
        if domain == self.config.final_codeword_size {
            let layer = ProverLayer { domain_size: domain, codeword, tree, root };
            state.layers.push(layer);
            state.finished = true;
        } else {
            let alpha = state.transcript.squeeze_field(self.params);
            let next = fold_layer(&self.config, &state.current, alpha, layer_index);
            let layer = ProverLayer { domain_size: domain, codeword, tree, root };
            state.layers.push(layer);
            state.current = next;
        }
        proof {
            assert(layers_model(state.layers@) =~= m.layers.push(
                LayerModel { codeword: m.current, tree: tm },
            ));
            lemma_step_wf(*self.params, self.config, n, m, tm);
            assert forall|k: int| 0 <= k < state.layers@.len() implies #[trigger] state.layers@[k].wf() by {
                if k < layer_index {
                    assert(state.layers@[k] == old(state).layers@[k]);
                }
            }
        }
    }

    /// Opens every layer but the final one at the positions that
    /// `initial_index` leads to.
    fn open_query(&self, state: &FriFoldState, initial_index: usize) -> (query: FriQuery)
        requires
            state.wf(self.config()),
            state@.finished,
        ensures
            query@ == (QueryModel {
                initial_index,
                layers: open_from(self.config(), state@.layers, 0, initial_index as nat),
            }),
    {
        let ghost ls = state@.layers;
        let ghost whole = open_from(self.config, ls, 0, initial_index as nat);
        let nl = state.layers.len();
        let mut current_idx = initial_index;
        let mut layers_opened: Vec<FriLayerOpening> = Vec::new();
        let mut layer_idx: usize = 0;
        assert(openings_view(layers_opened@) + whole =~= whole);
        while layer_idx < nl && state.layers[layer_idx].domain_size
            != self.config.final_codeword_size
            invariant
                state.wf(self.config()),
                state@.finished,
                ls == state@.layers,
                nl == state.layers@.len(),
                layer_idx <= nl,
                whole == openings_view(layers_opened@) + open_from(
                    self.config,
                    ls,
                    layer_idx as nat,
                    current_idx as nat,
                ),
            decreases nl - layer_idx,
        {
            let layer = &state.layers[layer_idx];
            let ghost lm = ls[layer_idx as int];
            assert(state.layers@[layer_idx as int].wf());
            assert(lm == layer.model());
            let domain = layer.domain_size;
            assert(domain >= 2) by {
                if layer_idx + 1 == nl {
                    assert(ls.last().codeword == state@.current);
                }
            }
            let half = domain / 2;
            let local_index = current_idx % half;
            let x_index = local_index;
            let neg_x_index = local_index + half;
            let x_eval = layer.codeword[x_index];
            let neg_x_eval = layer.codeword[neg_x_index];
            let x_proof = extract_merkle_proof(&layer.tree, x_index, domain);
            let neg_x_proof = extract_merkle_proof(&layer.tree, neg_x_index, domain);
            let opening = FriLayerOpening {
                layer_index: layer_idx,
                domain_size: domain,
                local_index,
                x_index,
                x_eval,
                x_proof,
                neg_x_index,
                neg_x_eval,
                neg_x_proof,
            };
            let ghost before = layers_opened@;
            layers_opened.push(opening);
            proof {
                assert(opening@ == opening_at(layer_idx as nat, lm, current_idx as nat));
                assert(open_from(self.config, ls, layer_idx as nat, current_idx as nat) == seq![
                    opening@,
                ] + open_from(self.config, ls, (layer_idx + 1) as nat, local_index as nat));
                assert(openings_view(layers_opened@) =~= openings_view(before).push(opening@));
                assert(openings_view(before) + (seq![opening@] + open_from(
                    self.config,
                    ls,
                    (layer_idx + 1) as nat,
                    local_index as nat,
                )) =~= openings_view(layers_opened@) + open_from(
                    self.config,
                    ls,
                    (layer_idx + 1) as nat,
                    local_index as nat,
                ));
            }
            current_idx = local_index;
            layer_idx += 1;
        }
        if layer_idx < nl {
            assert(state.layers@[layer_idx as int].wf());
        }
        assert(openings_view(layers_opened@) + seq![] =~= openings_view(layers_opened@));
        FriQuery { initial_index, layers: layers_opened }
    }

    /// Builds the proof from a finished state: the roots, the query indices
    /// that the replayed transcript samples, and the openings.
    pub fn finish(&self, state: FriFoldState) -> (proof: FriProof)
        requires
            state.wf(self.config()),
            state@.finished,
            state.initial_size() >= 2,
        ensures
            proof@ == finish_spec(self.params(), self.config(), state@, state.initial_size()),
    {
        let n = state.initial_domain_size;
        let ghost ls = state@.layers;
        let nl = state.layers.len();
        let mut roots: Vec<Digest> = Vec::with_capacity(nl);
        for i in 0..nl
            invariant
                nl == state.layers@.len(),
                ls == state@.layers,
                state.wf(self.config()),
                digests(roots@) =~= roots_of(ls).take(i as int),
        {
            let r = state.layers[i].root;
            assert(state.layers@[i as int].wf());
            let ghost before = roots@;
            roots.push(r);
            assert(digests(roots@) =~= digests(before).push(r@));
            assert(roots_of(ls).take(i as int).push(r@) =~= roots_of(ls).take(i + 1));
        }
        assert(roots_of(ls).take(nl as int) =~= roots_of(ls));
        let mut transcript = build_transcript_header(self.params, &self.config, n);
        let _alphas = replay_roots(&mut transcript, self.params, &roots);
        let query_bound = n / 2;
        let query_indices = sample_query_indices(
            &mut transcript,
            self.params,
            self.config.num_queries,
            query_bound,
        );
        let ghost qs = query_indices@;
        let nq = query_indices.len();
        let mut queries: Vec<FriQuery> = Vec::with_capacity(nq);
        for q in 0..nq
            invariant
                nq == qs.len(),
                qs == query_indices@,
                state.wf(self.config()),
                state@.finished,
                ls == state@.layers,
                queries_view(queries@) =~= Seq::new(
                    q as nat,
                    |j: int|
                        QueryModel {
                            initial_index: qs[j],
                            layers: open_from(self.config, ls, 0, qs[j] as nat),
                        },
                ),
        {
            let query = self.open_query(&state, query_indices[q]);
            let ghost before = queries@;
            queries.push(query);
            assert(queries_view(queries@) =~= queries_view(before).push(query@));
        }
        FriProof { config: self.config, roots, final_codeword: state.current, queries }
    }

    /// Proves that the initial codeword (flat words, four per evaluation) is
    /// close to a low-degree polynomial: commits every layer with the Merkle
    /// tree built on the CPU, then opens the sampled queries.
    pub fn prove(&self, initial_codeword_flat: &[u64]) -> (proof: FriProof)
        requires
            initial_codeword_flat@.len() % 4 == 0,
            config_valid(self.config(), (initial_codeword_flat@.len() / 4) as nat),
            initial_codeword_flat@.len() / 4 >= 2,
            prover_inverses_exist(self.config(), (initial_codeword_flat@.len() / 4) as nat),
        ensures
            proof@ == prove_spec(self.params(), self.config(), unflatten_spec(initial_codeword_flat@)),
    {
        let ghost n = (initial_codeword_flat@.len() / 4) as nat;
        let ghost m0 = init_model(*self.params, self.config, unflatten_spec(initial_codeword_flat@));
        let mut state = self.start(initial_codeword_flat);
        while !state.finished
            invariant
                state.wf(self.config()),
                state.initial_size() == n,
                n >= 2,
                prover_inverses_exist(self.config(), n),
                commit_from(*self.params, self.config, state@) == commit_from(
                    *self.params,
                    self.config,
                    m0,
                ),
            decreases 2 * state@.current.len() + (if state@.finished {
                0nat
            } else {
                1nat
            }),
        {
            let ghost m = state@;
            proof {
                lemma_current_small(self.config, n, m);
            }
            let tree = build_merkle_tree_cpu(self.params, &state.current);
            proof {
                crate::merkle::lemma_tree_len(*self.params, m.current);
                let fin = self.config.final_codeword_size as nat;
                let k = m.layers.len();
                if m.current.len() != fin {
                    lemma_pow2_pos(k);
                    lemma_mul_strict_inequality(fin as int, m.current.len() as int, pow2(k) as int);
                    assert(fin * pow2(k) < n);
                    assert(layer_generator(self.config, k) != 0);
                }
            }
            self.commit_layer(&mut state, tree);
            proof {
                let fin = self.config.final_codeword_size as nat;
                if !state@.finished {
                    lemma_pow2_at_most_half(fin, m.current.len());
                }
            }
        }
        self.finish(state)
    }
}

} // verus!
