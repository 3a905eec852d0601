//! Binary Merkle trees over Poseidon digests.
//!
//! A tree over `n` leaves (n a power of two) is stored flat in `2n - 1`
//! nodes: the leaves first, then each layer above them, the root last.
use crate::poseidon::{hash_pair_spec, poseidon_hash_pair, Digest, PoseidonParams};
use vstd::prelude::*;

verus! {

/// `n` is a power of two (1, 2, 4, ...).
pub open spec fn is_pow2(n: nat) -> bool
    decreases n,
{
    if n == 1 {
        true
    } else if n < 2 || n % 2 != 0 {
        false
    } else {
        is_pow2(n / 2)
    }
}

/// The values of a sequence of digests.
pub open spec fn digests(s: Seq<Digest>) -> Seq<Seq<u64>> {
    s.map_values(|d: Digest| d@)
}

/// The layer above `layer`: each pair of siblings hashed together.
pub open spec fn layer_up(params: PoseidonParams, layer: Seq<Seq<u64>>) -> Seq<Seq<u64>> {
    Seq::new(layer.len() / 2, |i: int| hash_pair_spec(params, layer[2 * i], layer[2 * i + 1]))
}

/// All nodes of the tree over `layer`, layer by layer from the bottom.
pub open spec fn tree_spec(params: PoseidonParams, layer: Seq<Seq<u64>>) -> Seq<Seq<u64>>
    decreases layer.len(),
{
    if layer.len() <= 1 {
        layer
    } else {
        layer + tree_spec(params, layer_up(params, layer))
    }
}

/// The root of the tree over `layer`.
pub open spec fn root_spec(params: PoseidonParams, layer: Seq<Seq<u64>>) -> Seq<u64>
    decreases layer.len(),
{
    if layer.len() <= 1 {
        layer[0]
    } else {
        root_spec(params, layer_up(params, layer))
    }
}

/// The index of the sibling of node `i` within its layer.
pub open spec fn sibling(i: nat) -> nat {
    if i % 2 == 0 {
        i + 1
    } else {
        (i - 1) as nat
    }
}

/// The authentication path of leaf `idx` read from a flat tree whose layer of
/// `size` nodes starts at `offset`.
pub open spec fn path_spec(tree: Seq<Seq<u64>>, idx: nat, size: nat, offset: nat) -> Seq<
    Seq<u64>,
>
    decreases size,
{
    if size <= 1 {
        seq![]
    } else {
        seq![tree[(offset + sibling(idx)) as int]] + path_spec(tree, idx / 2, size / 2, offset + size)
    }
}

/// The authentication path of leaf `idx`, read layer by layer.
pub open spec fn path_layers(params: PoseidonParams, layer: Seq<Seq<u64>>, idx: nat) -> Seq<
    Seq<u64>,
>
    decreases layer.len(),
{
    if layer.len() <= 1 {
        seq![]
    } else {
        seq![layer[sibling(idx) as int]] + path_layers(params, layer_up(params, layer), idx / 2)
    }
}

/// The digest that hashing `cur` up along `path` gives, `idx` telling at
/// each level whether `cur` is the left or the right child.
pub open spec fn fold_path_spec(
    params: PoseidonParams,
    idx: nat,
    cur: Seq<u64>,
    path: Seq<Seq<u64>>,
) -> Seq<u64>
    decreases path.len(),
{
    if path.len() == 0 {
        cur
    } else {
        let next = if idx % 2 == 0 {
            hash_pair_spec(params, cur, path[0])
        } else {
            hash_pair_spec(params, path[0], cur)
        };
        fold_path_spec(params, idx / 2, next, path.drop_first())
    }
}

/// Ties the bit trick `x & (x - 1) == 0` to `is_pow2`.
proof fn lemma_pow2_bits(x: usize)
    requires
        x != 0,
    ensures
        (x & ((x - 1) as usize) == 0) == is_pow2(x as nat),
    decreases x,
{
    if x == 1 {
        assert(1usize & 0usize == 0) by (bit_vector);
    } else if x % 2 != 0 {
        assert(x & ((x - 1) as usize) != 0) by (bit_vector)
            requires
                x > 1,
                x % 2 != 0,
        ;
    } else {
        assert((x & ((x - 1) as usize) == 0) == ((x / 2) & ((x / 2 - 1) as usize) == 0))
            by (bit_vector)
            requires
                x > 1,
                x % 2 == 0,
        ;
        lemma_pow2_bits(x / 2);
    }
}

/// Whether `x` is a power of two.
pub fn is_power_of_two(x: usize) -> (r: bool)
    ensures
        r == is_pow2(x as nat),
{
    if x == 0 {
        false
    } else {
        proof {
            lemma_pow2_bits(x);
        }
        x & (x - 1) == 0
    }
}


/// A tree over a power-of-two number of leaves has `2n - 1` nodes.
pub proof fn lemma_tree_len(params: PoseidonParams, layer: Seq<Seq<u64>>)
    requires
        is_pow2(layer.len()),
    ensures
        tree_spec(params, layer).len() == 2 * layer.len() - 1,
    decreases layer.len(),
{
    if layer.len() > 1 {
        lemma_tree_len(params, layer_up(params, layer));
    }
}

/// The last node of the tree is its root.
pub proof fn lemma_tree_last_is_root(params: PoseidonParams, layer: Seq<Seq<u64>>)
    requires
        layer.len() >= 1,
    ensures
        tree_spec(params, layer).len() >= 1,
        tree_spec(params, layer).last() == root_spec(params, layer),
    decreases layer.len(),
{
    if layer.len() > 1 {
        lemma_tree_last_is_root(params, layer_up(params, layer));
    }
}

/// Builds the whole tree over `leaves`, leaves first and root last.
pub fn build_merkle_tree_cpu(params: &PoseidonParams, leaves: &[Digest]) -> (tree: Vec<Digest>)
    requires
        leaves@.len() > 0,
        is_pow2(leaves@.len() as nat),
        leaves@.len() <= usize::MAX / 2,
    ensures
        digests(tree@) == tree_spec(*params, digests(leaves@)),
{
    let n = leaves.len();
    let ghost all = tree_spec(*params, digests(leaves@));
    let mut tree: Vec<Digest> = Vec::with_capacity(2 * n - 1);
    for i in 0..n
        invariant
            n == leaves@.len(),
            digests(tree@) =~= digests(leaves@).take(i as int),
    {
        let ghost old_tree = tree@;
        tree.push(leaves[i]);
        assert(digests(tree@) =~= digests(old_tree).push(leaves@[i as int]@));
        assert(digests(leaves@).take(i as int).push(leaves@[i as int]@) =~= digests(
            leaves@,
        ).take(i + 1));
    }
    assert(digests(leaves@).take(n as int) =~= digests(leaves@));
    let mut current_layer_start: usize = 0;
    let mut current_layer_size: usize = n;
    let ghost mut done: Seq<Seq<u64>> = seq![];
    let ghost mut cur: Seq<Seq<u64>> = digests(leaves@);
    proof {
        lemma_tree_len(*params, cur);
        assert(done + tree_spec(*params, cur) =~= all);
    }
    while current_layer_size > 1
        invariant
            tree@.len() == current_layer_start + current_layer_size,
            digests(tree@) =~= done + cur,
            done.len() == current_layer_start,
            cur.len() == current_layer_size,
            is_pow2(current_layer_size as nat),
            done + tree_spec(*params, cur) == all,
            current_layer_start + 2 * current_layer_size - 1 == 2 * n - 1,
            n <= usize::MAX / 2,
        decreases current_layer_size,
    {
        let next_layer_size = current_layer_size / 2;
        let ghost up = layer_up(*params, cur);
        let ghost before = digests(tree@);
        for i in 0..next_layer_size
            invariant
                next_layer_size == current_layer_size / 2,
                current_layer_size > 1,
                tree@.len() == current_layer_start + current_layer_size + i,
                before == done + cur,
                done.len() == current_layer_start,
                cur.len() == current_layer_size,
                up == layer_up(*params, cur),
                digests(tree@) =~= before + up.take(i as int),
                current_layer_start + 2 * current_layer_size - 1 == 2 * n - 1,
                n <= usize::MAX / 2,
        {
            let left = tree[current_layer_start + 2 * i];
            let right = tree[current_layer_start + 2 * i + 1];
            assert(digests(tree@)[current_layer_start + 2 * i] == left@);
            assert(digests(tree@)[current_layer_start + 2 * i + 1] == right@);
            assert(left@ == cur[2 * i as int]);
            assert(right@ == cur[2 * i + 1]);
            let h = poseidon_hash_pair(params, &left, &right);
            let ghost old_tree = tree@;
            tree.push(h);
            assert(digests(tree@) =~= digests(old_tree).push(h@));
            assert(up.take(i as int).push(h@) =~= up.take(i + 1));
        }
        proof {
            assert(up.take(next_layer_size as int) =~= up);
            assert(tree_spec(*params, cur) == cur + tree_spec(*params, up));
            assert(done + cur + tree_spec(*params, up) =~= done + tree_spec(*params, cur));
            done = done + cur;
            cur = up;
        }
        current_layer_start = current_layer_start + current_layer_size;
        current_layer_size = next_layer_size;
    }
    proof {
        assert(tree_spec(*params, cur) == cur);
    }
    tree
}

/// The root of a flat tree: its last node.
pub fn merkle_root_from_tree(tree: &[Digest]) -> (root: Digest)
    requires
        tree@.len() > 0,
    ensures
        root == tree@.last(),
{
    tree[tree.len() - 1]
}


/// Reads the authentication path of leaf `leaf_idx` out of a flat tree over
/// `domain_size` leaves: the sibling at each layer, bottom up.
pub fn extract_merkle_proof(tree: &[Digest], leaf_idx: usize, domain_size: usize) -> (proof: Vec<
    Digest,
>)
    requires
        domain_size > 0,
        leaf_idx < domain_size,
        tree@.len() == 2 * domain_size - 1,
    ensures
        digests(proof@) == path_spec(digests(tree@), leaf_idx as nat, domain_size as nat, 0),
{
    let ghost t = digests(tree@);
    let tree_len = tree.len();
    let mut proof: Vec<Digest> = Vec::new();
    let mut current_layer_size = domain_size;
    let mut layer_start_offset: usize = 0;
    let mut current_rel_idx = leaf_idx;
    while current_layer_size > 1
        invariant
            t == digests(tree@),
            tree_len == tree@.len(),
            tree@.len() == 2 * domain_size - 1,
            current_rel_idx <= current_layer_size,
            layer_start_offset + 2 * current_layer_size <= 2 * domain_size,
            current_rel_idx == current_layer_size ==> layer_start_offset + 2 * current_layer_size
                <= 2 * domain_size - 1,
            path_spec(t, leaf_idx as nat, domain_size as nat, 0) == digests(proof@) + path_spec(
                t,
                current_rel_idx as nat,
                current_layer_size as nat,
                layer_start_offset as nat,
            ),
        decreases current_layer_size,
    {
        let x = current_rel_idx;
        assert((x ^ 1usize) as int == (if x % 2 == 0 {
            x + 1
        } else {
            x - 1
        })) by (bit_vector);
        let sibling_rel_idx = current_rel_idx ^ 1;
        assert(layer_start_offset + sibling_rel_idx < tree_len);
        let sibling_abs_idx = layer_start_offset + sibling_rel_idx;
        let d = tree[sibling_abs_idx];
        let ghost old_proof = proof@;
        proof.push(d);
        proof {
            assert(digests(proof@) =~= digests(old_proof).push(d@));
            assert(t[sibling_abs_idx as int] == d@);
            let rest = path_spec(
                t,
                (current_rel_idx / 2) as nat,
                (current_layer_size / 2) as nat,
                (layer_start_offset + current_layer_size) as nat,
            );
            assert(digests(old_proof) + (seq![d@] + rest) =~= digests(proof@) + rest);
        }
        layer_start_offset += current_layer_size;
        current_layer_size /= 2;
        current_rel_idx /= 2;
    }
    assert(digests(proof@) + seq![] =~= digests(proof@));
    proof
}

/// Digest equality, word by word.
pub fn digest_eq(a: &Digest, b: &Digest) -> (r: bool)
    ensures
        r == (a@ == b@),
{
    let r = a[0] == b[0] && a[1] == b[1] && a[2] == b[2] && a[3] == b[3];
    proof {
        if r {
            assert(a@ =~= b@);
        }
    }
    r
}

/// Checks an authentication path: hashes `leaf` up along `proof` and
/// compares the result with `root`.
pub fn verify_merkle_path(
    params: &PoseidonParams,
    leaf_idx: usize,
    leaf: &Digest,
    proof: &[Digest],
    root: &Digest,
) -> (ok: bool)
    ensures
        ok == (fold_path_spec(*params, leaf_idx as nat, leaf@, digests(proof@)) == root@),
{
    let ghost whole = fold_path_spec(*params, leaf_idx as nat, leaf@, digests(proof@));
    let mut current_hash = *leaf;
    let mut current_idx = leaf_idx;
    let n = proof.len();
    assert(digests(proof@).skip(0) =~= digests(proof@));
    for i in 0..n
        invariant
            n == proof@.len(),
            whole == fold_path_spec(
                *params,
                current_idx as nat,
                current_hash@,
                digests(proof@).skip(i as int),
            ),
    {
        let sibling = proof[i];
        let ghost rest = digests(proof@).skip(i as int);
        assert(rest[0] == sibling@);
        assert(rest.drop_first() =~= digests(proof@).skip(i + 1));
        current_hash = if current_idx % 2 == 0 {
            poseidon_hash_pair(params, &current_hash, &sibling)
        } else {
            poseidon_hash_pair(params, &sibling, &current_hash)
        };
        current_idx = current_idx / 2;
    }
    assert(digests(proof@).skip(n as int) =~= seq![]);
    digest_eq(&current_hash, root)
}

/// Reading the path out of the flat tree gives the layer-by-layer path.
proof fn lemma_path_from_flat_tree(
    params: PoseidonParams,
    pre: Seq<Seq<u64>>,
    layer: Seq<Seq<u64>>,
    idx: nat,
)
    requires
        is_pow2(layer.len()),
        idx < layer.len(),
    ensures
        path_spec(pre + tree_spec(params, layer), idx, layer.len(), pre.len()) == path_layers(
            params,
            layer,
            idx,
        ),
    decreases layer.len(),
{
    if layer.len() > 1 {
        let up = layer_up(params, layer);
        let pre2 = pre + layer;
        assert(pre + tree_spec(params, layer) =~= pre2 + tree_spec(params, up));
        lemma_path_from_flat_tree(params, pre2, up, idx / 2);
        assert(sibling(idx) < layer.len());
        assert((pre + tree_spec(params, layer))[(pre.len() + sibling(idx)) as int] == layer[sibling(
            idx,
        ) as int]);
    }
}

/// Hashing a leaf up along its layer-by-layer path gives the root.
proof fn lemma_fold_path_layers(params: PoseidonParams, layer: Seq<Seq<u64>>, idx: nat)
    requires
        is_pow2(layer.len()),
        idx < layer.len(),
    ensures
        fold_path_spec(params, idx, layer[idx as int], path_layers(params, layer, idx))
            == root_spec(params, layer),
    decreases layer.len(),
{
    if layer.len() > 1 {
        let up = layer_up(params, layer);
        let path = path_layers(params, layer, idx);
        lemma_fold_path_layers(params, up, idx / 2);
        assert(path.drop_first() =~= path_layers(params, up, idx / 2));
        if idx % 2 == 0 {
            assert(up[(idx / 2) as int] == hash_pair_spec(
                params,
                layer[idx as int],
                layer[(idx + 1) as int],
            ));
        } else {
            assert(up[(idx / 2) as int] == hash_pair_spec(
                params,
                layer[idx - 1],
                layer[idx as int],
            ));
        }
    }
}

/// Opening completeness: the authentication path that the tree over
/// `leaves` holds for leaf `idx` leads from that leaf to the tree's root.
pub proof fn lemma_merkle_opening_complete(
    params: PoseidonParams,
    leaves: Seq<Seq<u64>>,
    idx: nat,
)
    requires
        is_pow2(leaves.len()),
        idx < leaves.len(),
    ensures
        fold_path_spec(
            params,
            idx,
            leaves[idx as int],
            path_spec(tree_spec(params, leaves), idx, leaves.len(), 0),
        ) == root_spec(params, leaves),
{
    let empty: Seq<Seq<u64>> = seq![];
    assert(empty + tree_spec(params, leaves) =~= tree_spec(params, leaves));
    lemma_path_from_flat_tree(params, empty, leaves, idx);
    lemma_fold_path_layers(params, leaves, idx);
}


/// The words of a sequence of digests, in order.
pub open spec fn flatten_spec(s: Seq<Digest>) -> Seq<u64> {
    Seq::new(4 * s.len(), |k: int| s[k / 4]@[k % 4])
}

/// The digests whose words `words` holds, four at a time.
pub open spec fn unflatten_spec(words: Seq<u64>) -> Seq<Seq<u64>> {
    Seq::new(words.len() / 4, |i: int| words.subrange(4 * i, 4 * i + 4))
}

/// Grouping the words of a sequence of digests gives back the digests.
pub proof fn lemma_unflatten_flatten(s: Seq<Digest>)
    ensures
        flatten_spec(s).len() == 4 * s.len(),
        unflatten_spec(flatten_spec(s)) == digests(s),
{
    let f = flatten_spec(s);
    assert forall|i: int| 0 <= i < s.len() implies #[trigger] unflatten_spec(f)[i] == digests(s)[i] by {
        assert forall|k: int| 0 <= k < 4 implies f.subrange(4 * i, 4 * i + 4)[k] == s[i]@[k] by {
            assert((4 * i + k) / 4 == i && (4 * i + k) % 4 == k) by (nonlinear_arith)
                requires
                    0 <= k < 4,
            ;
        }
        assert(f.subrange(4 * i, 4 * i + 4) =~= s[i]@);
    }
    assert(unflatten_spec(f) =~= digests(s));
}

/// Laying out the digests that a word sequence groups into gives back the
/// words.
pub proof fn lemma_flatten_unflatten(words: Seq<u64>, s: Seq<Digest>)
    requires
        words.len() % 4 == 0,
        digests(s) == unflatten_spec(words),
    ensures
        flatten_spec(s) == words,
{
    let f = flatten_spec(s);
    assert(digests(s).len() == s.len());
    assert(s.len() == words.len() / 4);
    assert forall|k: int| 0 <= k < words.len() implies #[trigger] f[k] == words[k] by {
        let i = k / 4;
        let j = k % 4;
        assert(0 <= i < s.len() && 0 <= j < 4 && k == 4 * i + j) by (nonlinear_arith)
            requires
                0 <= k < words.len(),
                words.len() % 4 == 0,
                s.len() == words.len() / 4,
                i == k / 4,
                j == k % 4,
        ;
        assert(digests(s)[i] == s[i]@);
        assert(unflatten_spec(words)[i] == words.subrange(4 * i, 4 * i + 4));
    }
    assert(f =~= words);
}

/// Lays the digests out as one sequence of words.
pub fn flatten_digests(digests: &[Digest]) -> (out: Vec<u64>)
    requires
        digests@.len() * 4 <= usize::MAX,
    ensures
        out@ == flatten_spec(digests@),
{
    let n = digests.len();
    let mut out: Vec<u64> = Vec::with_capacity(n * 4);
    for i in 0..n
        invariant
            n == digests@.len(),
            n * 4 <= usize::MAX,
            out@ =~= flatten_spec(digests@.take(i as int)),
    {
        let d = digests[i];
        let ghost before = out@;
        out.push(d[0]);
        out.push(d[1]);
        out.push(d[2]);
        out.push(d[3]);
        assert(out@ =~= flatten_spec(digests@.take(i + 1))) by {
            assert(digests@.take(i + 1)[i as int] == d);
            assert forall|k: int| 0 <= k < 4 * i implies #[trigger] out@[k] == flatten_spec(
                digests@.take(i + 1),
            )[k] by {
                assert(out@[k] == before[k]);
                assert(k / 4 < i) by (nonlinear_arith)
                    requires
                        0 <= k < 4 * i,
                ;
            }
            assert forall|k: int| 4 * i <= k < 4 * i + 4 implies #[trigger] out@[k]
                == flatten_spec(digests@.take(i + 1))[k] by {
                assert(k / 4 == i && k % 4 == k - 4 * i) by (nonlinear_arith)
                    requires
                        4 * i <= k < 4 * i + 4,
                ;
            }
        }
    }
    assert(digests@.take(n as int) =~= digests@);
    out
}

/// Groups a sequence of words into digests, four words each.
pub fn unflatten_digests(words: &[u64]) -> (out: Vec<Digest>)
    requires
        words@.len() % 4 == 0,
    ensures
        digests(out@) == unflatten_spec(words@),
{
    let wl = words.len();
    let n = wl / 4;
    let mut out: Vec<Digest> = Vec::with_capacity(n);
    for i in 0..n
        invariant
            wl == words@.len(),
            n == words@.len() / 4,
            words@.len() % 4 == 0,
            digests(out@) =~= unflatten_spec(words@).take(i as int),
    {
        let d: Digest = [words[4 * i], words[4 * i + 1], words[4 * i + 2], words[4 * i + 3]];
        let ghost before = out@;
        out.push(d);
        assert(d@ =~= words@.subrange(4 * i, 4 * i + 4));
        assert(digests(out@) =~= digests(before).push(d@));
        assert(unflatten_spec(words@).take(i as int).push(d@) =~= unflatten_spec(words@).take(
            i + 1,
        ));
    }
    assert(unflatten_spec(words@).take(n as int) =~= unflatten_spec(words@));
    out
}

/// Groups a buffer of words into digests (the layout the device uses).
pub fn words_to_digests(words: &[u64]) -> (out: Vec<Digest>)
    requires
        words@.len() % 4 == 0,
    ensures
        digests(out@) == unflatten_spec(words@),
{
    unflatten_digests(words)
}

/// The root of a flat tree held as words: its last four words.
pub fn gpu_root_from_tree_buffer(tree_buffer: &[u64]) -> (root: Digest)
    requires
        tree_buffer@.len() >= 4,
    ensures
        root@ == tree_buffer@.subrange(tree_buffer@.len() - 4, tree_buffer@.len() as int),
{
    let n = tree_buffer.len();
    let r = [tree_buffer[n - 4], tree_buffer[n - 3], tree_buffer[n - 2], tree_buffer[n - 1]];
    assert(r@ =~= tree_buffer@.subrange(n - 4, n as int));
    r
}

/// A word buffer that holds the flat tree over `leaves`, four words per
/// node, ends in the root that is computed layer by layer.
pub proof fn lemma_buffer_root(params: PoseidonParams, leaves: Seq<Seq<u64>>, words: Seq<u64>)
    requires
        leaves.len() >= 1,
        words.len() % 4 == 0,
        unflatten_spec(words) == tree_spec(params, leaves),
    ensures
        words.len() >= 4,
        words.subrange(words.len() - 4, words.len() as int) == root_spec(params, leaves),
{
    lemma_tree_last_is_root(params, leaves);
    let t = unflatten_spec(words);
    let last = t.len() - 1;
    assert(4 * last + 4 == words.len());
    assert(t[last] == words.subrange(4 * last, 4 * last + 4));
}

/// A vector holding the same digests as `s`.
pub fn copy_digests(s: &[Digest]) -> (out: Vec<Digest>)
    ensures
        out@ == s@,
{
    let mut out: Vec<Digest> = Vec::with_capacity(s.len());
    for i in 0..s.len()
        invariant
            out@ =~= s@.take(i as int),
    {
        out.push(s[i]);
    }
    assert(s@.take(s@.len() as int) =~= s@);
    out
}

/// Computes only the root over `leaves`, one layer at a time.
pub fn build_merkle_root_cpu(params: &PoseidonParams, leaves: &[Digest]) -> (root: Digest)
    requires
        leaves@.len() > 0,
        is_pow2(leaves@.len() as nat),
    ensures
        root@ == root_spec(*params, digests(leaves@)),
{
    let mut current: Vec<Digest> = copy_digests(leaves);
    while current.len() > 1
        invariant
            current@.len() > 0,
            is_pow2(current@.len() as nat),
            root_spec(*params, digests(current@)) == root_spec(*params, digests(leaves@)),
        decreases current@.len(),
    {
        let cl = current.len();
        let half = cl / 2;
        let ghost cur = digests(current@);
        let mut next: Vec<Digest> = Vec::with_capacity(half);
        for i in 0..half
            invariant
                cl == current@.len(),
                half == current@.len() / 2,
                cur == digests(current@),
                digests(next@) =~= layer_up(*params, cur).take(i as int),
        {
            let h = poseidon_hash_pair(params, &current[2 * i], &current[2 * i + 1]);
            let ghost before = next@;
            next.push(h);
            assert(digests(next@) =~= digests(before).push(h@));
            assert(layer_up(*params, cur).take(i as int).push(h@) =~= layer_up(*params, cur).take(
                i + 1,
            ));
        }
        assert(layer_up(*params, cur).take(half as int) =~= layer_up(*params, cur));
        current = next;
    }
    current[0]
}

} // verus!
