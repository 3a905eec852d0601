//! A Fiat-Shamir transcript: a Poseidon digest that absorbs commitments and
//! squeezes out challenges, with a counter that separates successive
//! squeezes.
use crate::field::GOLDILOCKS_PRIME;
use crate::merkle::digests;
use crate::poseidon::{hash_pair_spec, poseidon_hash_pair, Digest, PoseidonParams};
use vstd::prelude::*;

verus! {

/// The abstract state of a transcript.
pub struct TranscriptModel {
    pub state: Seq<u64>,
    pub counter: u64,
}

/// The domain separator absorbed into every fresh transcript.
pub open spec fn domain_tag() -> Seq<u64> {
    seq![0x51494E47u64, 0x465249u64, 1u64, 0u64]
}

/// Absorbing a digest: the state becomes the hash of the old state and the
/// digest.
pub open spec fn t_absorb(params: PoseidonParams, t: TranscriptModel, d: Seq<u64>) -> TranscriptModel {
    TranscriptModel { state: hash_pair_spec(params, t.state, d), counter: t.counter }
}

/// Absorbing a word, padded to a digest with zeros.
pub open spec fn t_absorb_u64(params: PoseidonParams, t: TranscriptModel, v: u64) -> TranscriptModel {
    t_absorb(params, t, seq![v, 0u64, 0u64, 0u64])
}

/// The digest that the next squeeze outputs.
pub open spec fn t_squeeze_out(params: PoseidonParams, t: TranscriptModel) -> Seq<u64> {
    hash_pair_spec(params, t.state, seq![t.counter, 0u64, 0u64, 0u64])
}

/// The state after a squeeze: the output, and the counter one up (wrapping).
pub open spec fn t_squeeze(params: PoseidonParams, t: TranscriptModel) -> TranscriptModel {
    TranscriptModel {
        state: t_squeeze_out(params, t),
        counter: if t.counter == u64::MAX {
            0
        } else {
            (t.counter + 1) as u64
        },
    }
}

/// The field element that a squeezed digest gives: its first word reduced,
/// with zero replaced by one.
pub open spec fn field_of(d: Seq<u64>) -> u64 {
    if d[0] % GOLDILOCKS_PRIME == 0 {
        1
    } else {
        d[0] % GOLDILOCKS_PRIME
    }
}

/// The index below `bound` that a squeezed digest gives.
pub open spec fn index_of(d: Seq<u64>, bound: usize) -> usize {
    (d[0] as usize) % bound
}

/// The state of a fresh transcript.
pub open spec fn t_start(params: PoseidonParams) -> TranscriptModel {
    t_absorb(
        params,
        TranscriptModel { state: seq![0u64, 0u64, 0u64, 0u64], counter: 0 },
        domain_tag(),
    )
}

/// A transcript.
pub struct Transcript {
    state: Digest,
    counter: u64,
}

impl View for Transcript {
    type V = TranscriptModel;

    closed spec fn view(&self) -> TranscriptModel {
        TranscriptModel { state: self.state@, counter: self.counter }
    }
}

impl Transcript {
    /// A fresh transcript, with the domain separator absorbed.
    pub fn new(params: &PoseidonParams) -> (t: Transcript)
        ensures
            t@ == t_start(*params),
    {
        let mut t = Transcript { state: [0u64; 4], counter: 0 };
        assert(t.state@ =~= seq![0u64, 0u64, 0u64, 0u64]);
        let tag: Digest = [0x51494E47, 0x465249, 1, 0];
        assert(tag@ =~= domain_tag());
        t.absorb_digest(params, &tag);
        t
    }

    /// Absorbs one word.
    pub fn absorb_u64(&mut self, params: &PoseidonParams, value: u64)
        ensures
            final(self)@ == t_absorb_u64(*params, old(self)@, value),
    {
        let d: Digest = [value, 0, 0, 0];
        assert(d@ =~= seq![value, 0u64, 0u64, 0u64]);
        self.absorb_digest(params, &d);
    }

    /// Absorbs a digest.
    pub fn absorb_digest(&mut self, params: &PoseidonParams, d: &Digest)
        ensures
            final(self)@ == t_absorb(*params, old(self)@, d@),
    {
        self.state = poseidon_hash_pair(params, &self.state, d);
    }

    /// Squeezes out a digest and advances the counter.
    pub fn squeeze_digest(&mut self, params: &PoseidonParams) -> (out: Digest)
        ensures
            out@ == t_squeeze_out(*params, old(self)@),
            final(self)@ == t_squeeze(*params, old(self)@),
    {
        let c: Digest = [self.counter, 0, 0, 0];
        assert(c@ =~= seq![self.counter, 0u64, 0u64, 0u64]);
        let out = poseidon_hash_pair(params, &self.state, &c);
        self.state = out;
        self.counter = if self.counter == u64::MAX {
            0
        } else {
            self.counter + 1
        };
        out
    }

    /// Squeezes out a nonzero field element.
    pub fn squeeze_field(&mut self, params: &PoseidonParams) -> (x: u64)
        ensures
            x == field_of(t_squeeze_out(*params, old(self)@)),
            final(self)@ == t_squeeze(*params, old(self)@),
    {
        let d = self.squeeze_digest(params);
        let x = d[0] % GOLDILOCKS_PRIME;
        if x == 0 {
            1
        } else {
            x
        }
    }

    /// Squeezes out an index below `bound`.
    pub fn squeeze_usize(&mut self, params: &PoseidonParams, bound: usize) -> (i: usize)
        requires
            bound > 0,
        ensures
            i == index_of(t_squeeze_out(*params, old(self)@), bound),
            i < bound,
            final(self)@ == t_squeeze(*params, old(self)@),
    {
        let d = self.squeeze_digest(params);
        (d[0] as usize) % bound
    }
}


/// The transcript after `i` rounds, round `j` absorbing `roots[j]` and then
/// squeezing one challenge.
pub open spec fn absorb_squeeze(
    params: PoseidonParams,
    t: TranscriptModel,
    roots: Seq<Seq<u64>>,
    i: nat,
) -> TranscriptModel
    decreases i,
{
    if i == 0 {
        t
    } else {
        t_squeeze(params, t_absorb(params, absorb_squeeze(params, t, roots, (i - 1) as nat), roots[i - 1]))
    }
}

/// The challenge squeezed right after absorbing `roots[i]`.
pub open spec fn replay_alpha(
    params: PoseidonParams,
    t: TranscriptModel,
    roots: Seq<Seq<u64>>,
    i: nat,
) -> u64 {
    field_of(t_squeeze_out(params, t_absorb(params, absorb_squeeze(params, t, roots, i), roots[i as int])))
}

/// The challenges squeezed between the roots: one after each root but the
/// last.
pub open spec fn replay_alphas(params: PoseidonParams, t: TranscriptModel, roots: Seq<Seq<u64>>) -> Seq<u64> {
    if roots.len() == 0 {
        seq![]
    } else {
        Seq::new((roots.len() - 1) as nat, |i: int| replay_alpha(params, t, roots, i as nat))
    }
}

/// The transcript after absorbing every root, with a challenge squeezed
/// between each two.
pub open spec fn replay_final(params: PoseidonParams, t: TranscriptModel, roots: Seq<Seq<u64>>) -> TranscriptModel {
    if roots.len() == 0 {
        t
    } else {
        t_absorb(params, absorb_squeeze(params, t, roots, (roots.len() - 1) as nat), roots.last())
    }
}

/// The `count` indices below `bound` squeezed one after the other.
pub open spec fn sample_spec(params: PoseidonParams, t: TranscriptModel, count: nat, bound: usize) -> Seq<usize>
    decreases count,
{
    if count == 0 {
        seq![]
    } else {
        seq![index_of(t_squeeze_out(params, t), bound)] + sample_spec(
            params,
            t_squeeze(params, t),
            (count - 1) as nat,
            bound,
        )
    }
}

/// The state after squeezing `count` times.
pub open spec fn squeeze_n(params: PoseidonParams, t: TranscriptModel, count: nat) -> TranscriptModel
    decreases count,
{
    if count == 0 {
        t
    } else {
        squeeze_n(params, t_squeeze(params, t), (count - 1) as nat)
    }
}

/// Rounds depend only on the roots they absorb.
pub proof fn lemma_absorb_squeeze_prefix(
    params: PoseidonParams,
    t: TranscriptModel,
    r1: Seq<Seq<u64>>,
    r2: Seq<Seq<u64>>,
    i: nat,
)
    requires
        i <= r1.len(),
        i <= r2.len(),
        r1.take(i as int) == r2.take(i as int),
    ensures
        absorb_squeeze(params, t, r1, i) == absorb_squeeze(params, t, r2, i),
    decreases i,
{
    if i > 0 {
        assert(r1.take(i - 1) =~= r1.take(i as int).take(i - 1));
        assert(r2.take(i - 1) =~= r2.take(i as int).take(i - 1));
        assert(r1[i - 1] == r1.take(i as int)[i - 1]);
        assert(r2[i - 1] == r2.take(i as int)[i - 1]);
        lemma_absorb_squeeze_prefix(params, t, r1, r2, (i - 1) as nat);
    }
}

/// Replays the commitment phase: absorbs each root, squeezing a challenge
/// after every root but the last; returns the challenges.
pub fn replay_roots(t: &mut Transcript, params: &PoseidonParams, roots: &[Digest]) -> (alphas: Vec<u64>)
    ensures
        alphas@ == replay_alphas(*params, old(t)@, digests(roots@)),
        final(t)@ == replay_final(*params, old(t)@, digests(roots@)),
{
    let ghost t0 = t@;
    let ghost rs = digests(roots@);
    let n = roots.len();
    let mut alphas: Vec<u64> = Vec::new();
    for i in 0..n
        invariant
            n == roots@.len(),
            rs == digests(roots@),
            i < n ==> t@ == absorb_squeeze(*params, t0, rs, i as nat),
            i == n ==> t@ == replay_final(*params, t0, rs),
            alphas@ =~= Seq::new(
                if i == n && n > 0 {
                    (n - 1) as nat
                } else {
                    i as nat
                },
                |k: int| replay_alpha(*params, t0, rs, k as nat),
            ),
    {
        let ghost before = t@;
        t.absorb_digest(params, &roots[i]);
        assert(roots@[i as int]@ == rs[i as int]);
        if i + 1 < n {
            let a = t.squeeze_field(params);
            alphas.push(a);
        }
    }
    if n == 0 {
        assert(replay_final(*params, t0, rs) == t0);
    }
    alphas
}

/// Squeezes `count` indices below `bound`.
pub fn sample_query_indices(
    t: &mut Transcript,
    params: &PoseidonParams,
    count: usize,
    bound: usize,
) -> (out: Vec<usize>)
    requires
        bound > 0,
    ensures
        out@ == sample_spec(*params, old(t)@, count as nat, bound),
        final(t)@ == squeeze_n(*params, old(t)@, count as nat),
        forall|i: int| 0 <= i < out@.len() ==> out@[i] < bound,
{
    let ghost t0 = t@;
    let mut out: Vec<usize> = Vec::with_capacity(count);
    for i in 0..count
        invariant
            bound > 0,
            sample_spec(*params, t0, count as nat, bound) == out@ + sample_spec(
                *params,
                t@,
                (count - i) as nat,
                bound,
            ),
            squeeze_n(*params, t0, count as nat) == squeeze_n(*params, t@, (count - i) as nat),
            forall|k: int| 0 <= k < out@.len() ==> out@[k] < bound,
    {
        let ghost before = t@;
        let ghost rest = sample_spec(*params, t@, (count - i) as nat, bound);
        let idx = t.squeeze_usize(params, bound);
        let ghost old_out = out@;
        out.push(idx);
        assert(rest == seq![idx] + sample_spec(*params, t@, (count - i - 1) as nat, bound));
        assert(old_out + rest =~= out@ + sample_spec(*params, t@, (count - (i + 1)) as nat, bound));
    }
    assert(out@ + seq![] =~= out@);
    out
}

} // verus!
