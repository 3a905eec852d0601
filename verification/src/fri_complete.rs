//! Completeness of FRI: the verifier accepts every proof that the prover
//! produces.
use crate::fri::{
    config_valid, fold_spec, domain_point, lemma_invertible_domain, lemma_pow2_mono, lemma_x_inv_agrees,
    FriConfig, QueryModel,
};
use crate::field::{finv, HALF_INV};
use crate::merkle::{
    is_pow2, lemma_merkle_opening_complete, lemma_tree_last_is_root, root_spec, tree_spec,
};
use crate::poseidon::PoseidonParams;
use crate::fri_verifier::{
    derived_initial_size, lemma_passing_query_no_panic, opening_ok, query_index_at, query_ok,
    query_panics,
    verify_input_ok, verify_spec,
};
use crate::prover::{
    commit_from, finish_spec, fold_codeword, header_spec, init_model, lemma_pow2_at_most_half,
    prover_inverses_exist,
    lemma_step_wf, model_wf, open_from, opening_at, prove_spec, roots_of,
    step_model, folds, FoldModel, LayerModel,
};
use crate::transcript::{
    absorb_squeeze, lemma_absorb_squeeze_prefix, replay_alpha, replay_alphas, TranscriptModel,
};
use vstd::arithmetic::div_mod::*;
use vstd::arithmetic::mul::*;
use vstd::arithmetic::power2::{lemma_pow2_pos, lemma_pow2_unfold, pow2};
use vstd::prelude::*;

verus! {

/// Each layer's tree is the Merkle tree over its codeword, and each layer's
/// codeword is the fold of the one before with the challenge that the
/// transcript gives after the earlier roots.
pub open spec fn layers_linked(
    params: PoseidonParams,
    config: FriConfig,
    h: TranscriptModel,
    ls: Seq<LayerModel>,
) -> bool {
    &&& forall|k: int|
        #![trigger ls[k]]
        0 <= k < ls.len() ==> ls[k].tree == tree_spec(params, ls[k].codeword)
    &&& forall|k: int|
        #![trigger ls[k + 1]]
        0 <= k && k + 1 < ls.len() ==> ls[k + 1].codeword == fold_codeword(
            config,
            ls[k].codeword,
            replay_alpha(params, h, roots_of(ls), k as nat),
            k as nat,
        )
}

/// The prover's state before a step of the honest run on `c`.
pub open spec fn commit_inv(
    params: PoseidonParams,
    config: FriConfig,
    c: Seq<Seq<u64>>,
    m: FoldModel,
) -> bool {
    let h = header_spec(params, config, c.len());
    let len = m.layers.len();
    &&& model_wf(config, c.len(), m)
    &&& !m.finished
    &&& layers_linked(params, config, h, m.layers)
    &&& len == 0 ==> m.current == c
    &&& len > 0 ==> {
        &&& m.layers[0].codeword == c
        &&& m.current == fold_codeword(
            config,
            m.layers[len - 1].codeword,
            replay_alpha(params, h, roots_of(m.layers), (len - 1) as nat),
            (len - 1) as nat,
        )
    }
    &&& m.transcript == absorb_squeeze(params, h, roots_of(m.layers), len)
}

/// The prover's state at the end of the honest run on `c`.
pub open spec fn commit_done(
    params: PoseidonParams,
    config: FriConfig,
    c: Seq<Seq<u64>>,
    m: FoldModel,
) -> bool {
    let h = header_spec(params, config, c.len());
    &&& model_wf(config, c.len(), m)
    &&& m.finished
    &&& layers_linked(params, config, h, m.layers)
    &&& m.layers[0].codeword == c
    &&& m.current == m.layers.last().codeword
}

/// A challenge depends only on the roots absorbed up to it.
proof fn lemma_alpha_prefix(
    params: PoseidonParams,
    h: TranscriptModel,
    r1: Seq<Seq<u64>>,
    r2: Seq<Seq<u64>>,
    k: nat,
)
    requires
        k < r1.len(),
        k < r2.len(),
        r1.take((k + 1) as int) == r2.take((k + 1) as int),
    ensures
        replay_alpha(params, h, r1, k) == replay_alpha(params, h, r2, k),
{
    assert(r1.take(k as int) =~= r1.take((k + 1) as int).take(k as int));
    assert(r2.take(k as int) =~= r2.take((k + 1) as int).take(k as int));
    assert(r1[k as int] == r1.take((k + 1) as int)[k as int]);
    assert(r2[k as int] == r2.take((k + 1) as int)[k as int]);
    lemma_absorb_squeeze_prefix(params, h, r1, r2, k);
}

/// The honest run from any state on the way ends in a state whose layers
/// are linked.
#[verifier::rlimit(50)]
proof fn lemma_commit_run(
    params: PoseidonParams,
    config: FriConfig,
    c: Seq<Seq<u64>>,
    m: FoldModel,
)
    requires
        commit_inv(params, config, c, m),
    ensures
        commit_done(params, config, c, commit_from(params, config, m)),
    decreases m.current.len(),
{
    let h = header_spec(params, config, c.len());
    let n = c.len();
    let tree = tree_spec(params, m.current);
    let len = m.layers.len();
    crate::merkle::lemma_tree_len(params, m.current);
    lemma_step_wf(params, config, n, m, tree);
    let m2 = step_model(params, config, m, tree);
    let roots = roots_of(m.layers);
    let roots2 = roots_of(m2.layers);
    assert(roots2 =~= roots.push(tree.last()));
    assert(roots2.take(len as int) =~= roots);
    assert(roots.take(len as int) =~= roots);
    lemma_absorb_squeeze_prefix(params, h, roots, roots2, len);
    assert forall|k: int| 0 <= k && k + 1 < m2.layers.len() implies #[trigger] m2.layers[k
        + 1].codeword == fold_codeword(
        config,
        m2.layers[k].codeword,
        replay_alpha(params, h, roots2, k as nat),
        k as nat,
    ) by {
        assert(roots2.take((k + 1) as int) =~= roots.take((k + 1) as int));
        lemma_alpha_prefix(params, h, roots, roots2, k as nat);
        if k + 1 < len {
            assert(m2.layers[k] == m.layers[k]);
            assert(m2.layers[k + 1] == m.layers[k + 1]);
        }
    }
    assert(layers_linked(params, config, h, m2.layers));
    if len > 0 {
        assert(m2.layers[0] == m.layers[0]);
    }
    if m2.finished {
        assert(commit_from(params, config, m) == m2);
    } else {
        assert(commit_from(params, config, m) == commit_from(params, config, m2));
        assert(m2.transcript == absorb_squeeze(params, h, roots2, len + 1));
        lemma_commit_run(params, config, c, m2);
    }
}

/// The openings from layer `k` on of the query with initial index `q0`.
proof fn lemma_open_shape(
    params: PoseidonParams,
    config: FriConfig,
    c: Seq<Seq<u64>>,
    m: FoldModel,
    q0: nat,
    k: nat,
)
    requires
        commit_done(params, config, c, m),
        k < m.layers.len(),
    ensures
        open_from(config, m.layers, k, query_index_at(c.len(), q0, k)).len() == m.layers.len() - 1
            - k,
        forall|j: int|
            0 <= j < m.layers.len() - 1 - k ==> #[trigger] open_from(
                config,
                m.layers,
                k,
                query_index_at(c.len(), q0, k),
            )[j] == opening_at(
                (k + j) as nat,
                m.layers[k + j],
                query_index_at(c.len(), q0, (k + j) as nat),
            ),
    decreases m.layers.len() - k,
{
    let n = c.len();
    let ls = m.layers;
    let cur = query_index_at(n, q0, k);
    assert(ls[k as int].codeword.len() * pow2(k) == n);
    if k + 1 < ls.len() {
        let len = ls[k as int].codeword.len();
        assert(len > config.final_codeword_size);
        lemma_pow2_pos(k);
        lemma_div_by_multiple(len as int, pow2(k) as int);
        assert(n / pow2(k) == len);
        assert(query_index_at(n, q0, k + 1) == cur % (len / 2));
        lemma_open_shape(params, config, c, m, q0, k + 1);
        let rest = open_from(config, ls, k + 1, query_index_at(n, q0, k + 1));
        assert(open_from(config, ls, k, cur) == seq![opening_at(k, ls[k as int], cur)] + rest);
        assert forall|j: int| 0 <= j < ls.len() - 1 - k implies #[trigger] open_from(
            config,
            ls,
            k,
            cur,
        )[j] == opening_at((k + j) as nat, ls[k + j], query_index_at(n, q0, (k + j) as nat)) by {
            if j > 0 {
                assert(open_from(config, ls, k, cur)[j] == rest[j - 1]);
                assert(k + 1 + (j - 1) == k + j);
            }
        }
    } else {
        assert(ls[k as int] == ls.last());
    }
}

/// An honest opening passes the layer checks.
proof fn lemma_opening_ok(
    params: PoseidonParams,
    config: FriConfig,
    c: Seq<Seq<u64>>,
    m: FoldModel,
    l: nat,
    cur: nat,
)
    requires
        commit_done(params, config, c, m),
        l + 1 < m.layers.len(),
    ensures
        opening_ok(
            params,
            finish_spec(params, config, m, c.len()),
            c.len(),
            l,
            opening_at(l, m.layers[l as int], cur),
            cur,
        ),
{
    let n = c.len();
    let layer = m.layers[l as int];
    let len = layer.codeword.len();
    let half = len / 2;
    let local = cur % half;
    let pf = finish_spec(params, config, m, n);
    assert(len * pow2(l) == n);
    assert(len > config.final_codeword_size);
    lemma_pow2_pos(l);
    lemma_div_by_multiple(len as int, pow2(l) as int);
    assert(len % 2 == 0 && len >= 2) by {
        lemma_pow2_at_most_half(config.final_codeword_size as nat, len);
    }
    assert(layer.tree == tree_spec(params, layer.codeword));
    crate::prover::lemma_exponent_small(len, l, n);
    let o = opening_at(l, layer, cur);
    assert(o.layer_index == l);
    assert(o.domain_size == n / pow2(l));
    assert(o.domain_size / 2 > 0);
    assert(o.local_index == cur % ((o.domain_size / 2) as nat));
    assert(o.neg_x_index == o.local_index + o.domain_size / 2);
    lemma_merkle_opening_complete(params, layer.codeword, local);
    lemma_merkle_opening_complete(params, layer.codeword, local + half);
    lemma_tree_last_is_root(params, layer.codeword);
    assert(pf.roots[l as int] == layer.tree.last());
}

/// An honest query passes every check.
proof fn lemma_query_ok(
    params: PoseidonParams,
    config: FriConfig,
    c: Seq<Seq<u64>>,
    m: FoldModel,
    q0: usize,
)
    requires
        commit_done(params, config, c, m),
        m.layers.len() >= 2,
    ensures
        query_ok(
            params,
            config,
            finish_spec(params, config, m, c.len()),
            replay_alphas(params, header_spec(params, config, c.len()), roots_of(m.layers)),
            c.len(),
            QueryModel { initial_index: q0, layers: open_from(config, m.layers, 0, q0 as nat) },
        ),
{
    let n = c.len();
    let ls = m.layers;
    let h = header_spec(params, config, n);
    let roots = roots_of(ls);
    let alphas = replay_alphas(params, h, roots);
    let pf = finish_spec(params, config, m, n);
    let q = QueryModel { initial_index: q0, layers: open_from(config, ls, 0, q0 as nat) };
    assert(query_index_at(n, q0 as nat, 0) == q0);
    lemma_open_shape(params, config, c, m, q0 as nat, 0);
    assert forall|l: int| 0 <= l < q.layers.len() implies #[trigger] opening_ok(
        params,
        pf,
        n,
        l as nat,
        q.layers[l],
        query_index_at(n, q0 as nat, l as nat),
    ) by {
        assert(q.layers[l] == opening_at(
            l as nat,
            ls[l],
            query_index_at(n, q0 as nat, l as nat),
        ));
        lemma_opening_ok(params, config, c, m, l as nat, query_index_at(n, q0 as nat, l as nat));
    }
    // The last check: the final codeword is the fold of the last opened layer.
    let l = (ls.len() - 2) as nat;
    let cur = query_index_at(n, q0 as nat, l);
    let o = q.layers[l as int];
    assert(o == opening_at(l, ls[l as int], cur));
    let cw = ls[l as int].codeword;
    let len = cw.len();
    assert(len > config.final_codeword_size);
    assert(len % 2 == 0 && len >= 2) by {
        lemma_pow2_at_most_half(config.final_codeword_size as nat, len);
    }
    let local = cur % (len / 2);
    assert(ls[(l + 1) as int] == ls.last());
    assert(pf.final_codeword == fold_codeword(config, cw, alphas[l as int], l));
    lemma_x_inv_agrees(config, l, local);
    assert(pf.final_codeword[local as int] == crate::fri::fold_spec(
        o.x_eval,
        o.neg_x_eval,
        alphas[l as int] as int,
        crate::field::HALF_INV as int,
        crate::field::finv(domain_point(config, l, local)),
    ));
}


/// The honest run on `c` satisfies the run invariant from its start and
/// ends linked.
proof fn lemma_honest_run(params: PoseidonParams, config: FriConfig, c: Seq<Seq<u64>>)
    requires
        c.len() <= usize::MAX / 4,
        config_valid(config, c.len()),
        config.final_codeword_size < c.len(),
    ensures
        commit_done(
            params,
            config,
            c,
            commit_from(params, config, init_model(params, config, c)),
        ),
        commit_from(params, config, init_model(params, config, c)).layers.len() >= 2,
{
    let m0 = init_model(params, config, c);
    vstd::arithmetic::power2::lemma2_to64();
    assert(roots_of(m0.layers) =~= seq![]);
    assert(folds(m0) == 0);
    assert(m0.current.len() * pow2(0) == c.len());
    assert(is_pow2(m0.current.len()));
    assert(config.final_codeword_size <= m0.current.len());
    assert(model_wf(config, c.len(), m0));
    assert(commit_inv(params, config, c, m0));
    lemma_commit_run(params, config, c, m0);
    let m = commit_from(params, config, m0);
    if m.layers.len() == 1 {
        assert(m.layers[0] == m.layers.last());
    }
}

/// Completeness: for every initial codeword whose domain size the
/// configuration fits, and that is folded at least once, the verifier
/// accepts the proof that the prover produces.
pub proof fn lemma_fri_complete(params: PoseidonParams, config: FriConfig, c: Seq<Seq<u64>>)
    requires
        c.len() <= usize::MAX / 4,
        config_valid(config, c.len()),
        config.final_codeword_size < c.len(),
    ensures
        verify_spec(params, config, prove_spec(params, config, c)),
{
    let n = c.len();
    lemma_honest_run(params, config, c);
    let m = commit_from(params, config, init_model(params, config, c));
    let pf = prove_spec(params, config, c);
    let ls = m.layers;
    let h = header_spec(params, config, n);
    assert(pf.roots.len() == ls.len());
    assert(folds(m) == ls.len() - 1);
    assert(derived_initial_size(pf) == Some(n as usize));
    lemma_tree_last_is_root(params, m.current);
    assert(pf.roots.last() == ls.last().tree.last());
    assert(pf.roots.last() == root_spec(params, pf.final_codeword));
    let alphas = replay_alphas(params, h, pf.roots);
    assert forall|q: int| 0 <= q < pf.queries.len() implies #[trigger] query_ok(
        params,
        config,
        pf,
        alphas,
        n,
        pf.queries[q],
    ) by {
        lemma_query_ok(params, config, c, m, pf.queries[q].initial_index);
    }
}

/// The prover's output is an input on which the verifier runs to the end,
/// provided no domain point of a folded layer is zero.
pub proof fn lemma_prove_output_admissible(
    params: PoseidonParams,
    config: FriConfig,
    c: Seq<Seq<u64>>,
)
    requires
        c.len() <= usize::MAX / 4,
        config_valid(config, c.len()),
        config.final_codeword_size < c.len(),
        forall|l: nat, i: nat|
            #![trigger domain_point(config, l, i)]
            config.final_codeword_size * pow2(l + 1) <= c.len() && i < c.len() / pow2(l + 1)
                ==> domain_point(config, l, i) != 0,
    ensures
        verify_input_ok(params, config, prove_spec(params, config, c)),
{
    let n = c.len();
    lemma_honest_run(params, config, c);
    let m = commit_from(params, config, init_model(params, config, c));
    let pf = prove_spec(params, config, c);
    let ls = m.layers;
    assert(folds(m) == ls.len() - 1);
    assert(derived_initial_size(pf) == Some(n as usize));
    let alphas = replay_alphas(params, header_spec(params, config, n), pf.roots);
    assert forall|q: int| 0 <= q < pf.queries.len() implies !query_panics(
        params,
        config,
        pf,
        alphas,
        #[trigger] pf.queries[q],
    ) by {
        let qm = pf.queries[q];
        lemma_query_ok(params, config, c, m, qm.initial_index);
        assert forall|l: int| 0 <= l < qm.layers.len() implies domain_point(
            config,
            l as nat,
            (#[trigger] qm.layers[l]).local_index as nat,
        ) != 0 by {
            let ln = l as nat;
            let o = qm.layers[l];
            let cur = query_index_at(n, qm.initial_index as nat, ln);
            assert(opening_ok(params, pf, n, ln, o, cur));
            lemma_pow2_unfold(ln + 1);
            lemma_pow2_pos(ln);
            lemma_div_denominator(n as int, pow2(ln) as int, 2);
            lemma_mul_is_commutative(pow2(ln) as int, 2);
            assert(o.local_index < n / pow2(ln + 1));
            lemma_pow2_mono(ln + 1, (ls.len() - 1) as nat);
            lemma_mul_inequality(
                pow2(ln + 1) as int,
                pow2((ls.len() - 1) as nat) as int,
                config.final_codeword_size as int,
            );
            lemma_mul_is_commutative(pow2(ln + 1) as int, config.final_codeword_size as int);
            lemma_mul_is_commutative(
                pow2((ls.len() - 1) as nat) as int,
                config.final_codeword_size as int,
            );
        }
        lemma_passing_query_no_panic(params, config, pf, alphas, qm);
    }
}

/// Completeness for a generator and an offset that are invertible mod `p`
/// (`g_inv` and `s_inv` are their inverses): the prover runs to the end on
/// every codeword that folds at least once, the verifier runs to the end on
/// its proof, and accepts it.
pub proof fn lemma_fri_complete_invertible(
    params: PoseidonParams,
    config: FriConfig,
    c: Seq<Seq<u64>>,
    g_inv: int,
    s_inv: int,
)
    requires
        c.len() <= usize::MAX / 4,
        config_valid(config, c.len()),
        config.final_codeword_size < c.len(),
        (config.domain_generator * g_inv) % crate::field::p() == 1,
        (config.domain_offset * s_inv) % crate::field::p() == 1,
    ensures
        prover_inverses_exist(config, c.len()),
        verify_input_ok(params, config, prove_spec(params, config, c)),
        verify_spec(params, config, prove_spec(params, config, c)),
{
    lemma_invertible_domain(config, g_inv, s_inv);
    lemma_prove_output_admissible(params, config, c);
    lemma_fri_complete(params, config, c);
}

/// Every layer that the prover commits after the first is the FRI fold of
/// the layer before it: entry `i` of layer `k + 1` folds entries `i` and
/// `i + n_k/2` of layer `k` with the challenge that the transcript gives
/// after root `k`, `1/2`, and the inverse of point `i` of layer `k`'s
/// domain. The first layer is the input, and the proof carries the layers'
/// roots and, as its final codeword, the last layer.
pub proof fn lemma_committed_layers_fold(params: PoseidonParams, config: FriConfig, c: Seq<Seq<u64>>)
    requires
        c.len() <= usize::MAX / 4,
        config_valid(config, c.len()),
        config.final_codeword_size < c.len(),
    ensures
        ({
            let ls = commit_from(params, config, init_model(params, config, c)).layers;
            let h = header_spec(params, config, c.len());
            let pf = prove_spec(params, config, c);
            &&& ls.len() >= 2
            &&& ls[0].codeword == c
            &&& pf.roots == roots_of(ls)
            &&& pf.final_codeword == ls.last().codeword
            &&& forall|k: int, i: int|
                #![trigger ls[k + 1].codeword[i]]
                0 <= k && k + 1 < ls.len() && 0 <= i < ls[k + 1].codeword.len() ==> {
                    &&& ls[k + 1].codeword.len() == ls[k].codeword.len() / 2
                    &&& ls[k + 1].codeword[i] == fold_spec(
                        ls[k].codeword[i],
                        ls[k].codeword[i + ls[k].codeword.len() / 2],
                        replay_alpha(params, h, roots_of(ls), k as nat) as int,
                        HALF_INV as int,
                        finv(domain_point(config, k as nat, i as nat)),
                    )
                }
        }),
{
    lemma_honest_run(params, config, c);
    let m = commit_from(params, config, init_model(params, config, c));
    let ls = m.layers;
    let h = header_spec(params, config, c.len());
    assert forall|k: int, i: int|
        0 <= k && k + 1 < ls.len() && 0 <= i < ls[k + 1].codeword.len() implies {
            &&& ls[k + 1].codeword.len() == ls[k].codeword.len() / 2
            &&& #[trigger] ls[k + 1].codeword[i] == fold_spec(
                ls[k].codeword[i],
                ls[k].codeword[i + ls[k].codeword.len() / 2],
                replay_alpha(params, h, roots_of(ls), k as nat) as int,
                HALF_INV as int,
                finv(domain_point(config, k as nat, i as nat)),
            )
        } by {
        assert(ls[k + 1].codeword == fold_codeword(
            config,
            ls[k].codeword,
            replay_alpha(params, h, roots_of(ls), k as nat),
            k as nat,
        ));
        lemma_x_inv_agrees(config, k as nat, i as nat);
    }
}

} // verus!
