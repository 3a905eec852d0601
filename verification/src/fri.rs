//! The FRI low-degree test over the Goldilocks field: configuration, the
//! evaluation domains, and the folding step shared by prover and verifier.
use crate::field::{fadd, finv, fmul, fpow, fsub, gl_add, gl_mul, gl_pow, gl_sub, p, HALF_INV};
use crate::merkle::{digests, is_pow2, is_power_of_two};
pub use crate::poseidon::Digest;
use vstd::arithmetic::div_mod::*;
use vstd::arithmetic::mul::*;
use vstd::arithmetic::power::*;
use vstd::arithmetic::power2::{lemma_pow2_pos, pow2};
use vstd::prelude::*;

pub use crate::fri_verifier::FriVerifier;
pub use crate::prover::{FriFoldState, FriProver};

verus! {

/// The parameters of a FRI proof.
#[derive(Clone, Copy, Debug)]
pub struct FriConfig {
    pub num_queries: usize,
    pub final_codeword_size: usize,
    pub domain_generator: u64,
    pub domain_offset: u64,
}

/// Why a configuration does not fit an initial domain size.
#[derive(Clone, Copy, Debug, PartialEq, Eq, Structural)]
pub enum FriConfigError {
    /// `num_queries` is zero.
    ZeroQueries,
    /// The initial domain size is not a power of two.
    DomainNotPowerOfTwo,
    /// `final_codeword_size` is not a power of two.
    FinalSizeNotPowerOfTwo,
    /// `final_codeword_size` is zero or larger than the initial domain.
    FinalSizeOutOfRange,
    /// The initial domain size is not a multiple of `final_codeword_size`.
    DomainNotDivisible,
}

/// The first condition, in the order they are checked, that `config` breaks
/// for an initial domain of `n` points.
pub open spec fn config_error(config: FriConfig, n: nat) -> Option<FriConfigError> {
    if config.num_queries == 0 {
        Some(FriConfigError::ZeroQueries)
    } else if !is_pow2(n) {
        Some(FriConfigError::DomainNotPowerOfTwo)
    } else if !is_pow2(config.final_codeword_size as nat) {
        Some(FriConfigError::FinalSizeNotPowerOfTwo)
    } else if !(config.final_codeword_size > 0 && config.final_codeword_size <= n) {
        Some(FriConfigError::FinalSizeOutOfRange)
    } else if n % (config.final_codeword_size as nat) != 0 {
        Some(FriConfigError::DomainNotDivisible)
    } else {
        None
    }
}

/// `config` fits an initial domain of `n` points.
pub open spec fn config_valid(config: FriConfig, n: nat) -> bool {
    config_error(config, n) is None
}

impl FriConfig {
    /// Asserts that the configuration fits an initial domain of
    /// `initial_domain_size` points; callers that cannot show it test it
    /// with `check` first.
    pub fn validate(&self, initial_domain_size: usize)
        requires
            config_valid(*self, initial_domain_size as nat),
    {
        let r = self.check(initial_domain_size);
        assert(r is Ok);
    }

    /// Checks that the configuration fits an initial domain of
    /// `initial_domain_size` points, reporting the first condition broken.
    pub fn check(&self, initial_domain_size: usize) -> (r: Result<(), FriConfigError>)
        ensures
            r == (match config_error(*self, initial_domain_size as nat) {
                None => Ok(()),
                Some(e) => Err(e),
            }),
    {
        if self.num_queries == 0 {
            return Err(FriConfigError::ZeroQueries);
        }
        if !is_power_of_two(initial_domain_size) {
            return Err(FriConfigError::DomainNotPowerOfTwo);
        }
        if !is_power_of_two(self.final_codeword_size) {
            return Err(FriConfigError::FinalSizeNotPowerOfTwo);
        }
        if !(self.final_codeword_size > 0 && self.final_codeword_size <= initial_domain_size) {
            return Err(FriConfigError::FinalSizeOutOfRange);
        }
        if initial_domain_size % self.final_codeword_size != 0 {
            return Err(FriConfigError::DomainNotDivisible);
        }
        Ok(())
    }
}

/// The generator of the domain of layer `k`: `g^(2^k)`.
pub open spec fn layer_generator(config: FriConfig, k: nat) -> int {
    fpow(config.domain_generator as int, pow2(k))
}

/// The coset offset of the domain of layer `k`: `s^(2^k)`.
pub open spec fn layer_offset(config: FriConfig, k: nat) -> int {
    fpow(config.domain_offset as int, pow2(k))
}

/// Point `i` of the domain of layer `k`: `s_k * g_k^i`.
pub open spec fn domain_point(config: FriConfig, k: nat, i: nat) -> int {
    fmul(layer_offset(config, k), fpow(layer_generator(config, k), i))
}

/// The inverse of point `i` of layer `k` as the prover computes it:
/// `s_k^-1 * (g_k^-1)^i`.
pub open spec fn prover_x_inv(config: FriConfig, k: nat, i: nat) -> int {
    fmul(finv(layer_offset(config, k)), fpow(finv(layer_generator(config, k)), i))
}

/// One FRI fold of the pair `f(x)`, `f(-x)`, word by word:
/// `(f(x) + f(-x)) / 2 + alpha * (f(x) - f(-x)) / (2x)`, with `1/2` and
/// `1/x` given.
pub open spec fn fold_spec(
    f_x: Seq<u64>,
    f_neg_x: Seq<u64>,
    alpha: int,
    half_inv: int,
    x_inv: int,
) -> Seq<u64> {
    Seq::new(
        4,
        |j: int|
            fadd(
                fmul(fadd(f_x[j] as int, f_neg_x[j] as int), half_inv),
                fmul(alpha, fmul(fsub(f_x[j] as int, f_neg_x[j] as int), fmul(half_inv, x_inv))),
            ) as u64,
    )
}

/// Folds one pair of evaluations.
pub fn fold_pair(f_x: &Digest, f_neg_x: &Digest, alpha: u64, half_inv: u64, x_inv: u64) -> (out:
    Digest)
    ensures
        out@ == fold_spec(f_x@, f_neg_x@, alpha as int, half_inv as int, x_inv as int),
{
    let mut out = [0u64; 4];
    let two_x_inv = gl_mul(half_inv, x_inv);
    for j in 0..4
        invariant
            two_x_inv == fmul(half_inv as int, x_inv as int),
            forall|k: int|
                0 <= k < j ==> out@[k] == fold_spec(
                    f_x@,
                    f_neg_x@,
                    alpha as int,
                    half_inv as int,
                    x_inv as int,
                )[k],
    {
        let sum = gl_add(f_x[j], f_neg_x[j]);
        let term1 = gl_mul(sum, half_inv);
        let diff = gl_sub(f_x[j], f_neg_x[j]);
        let diff_over_2x = gl_mul(diff, two_x_inv);
        let term2 = gl_mul(alpha, diff_over_2x);
        out[j] = gl_add(term1, term2);
    }
    assert(out@ =~= fold_spec(f_x@, f_neg_x@, alpha as int, half_inv as int, x_inv as int));
    out
}

/// Powers of two grow with the exponent.
pub proof fn lemma_pow2_mono(a: nat, b: nat)
    requires
        a <= b,
    ensures
        pow2(a) <= pow2(b),
{
    if a < b {
        vstd::arithmetic::power2::lemma_pow2_strictly_increases(a, b);
    }
}

/// `1 << k` is `2^k`.
proof fn lemma_shift_pow2(k: u64)
    requires
        k < 64,
    ensures
        1u64 << k == pow2(k as nat),
        pow2(k as nat) <= u64::MAX,
{
    vstd::bits::lemma_u64_pow2_no_overflow(k as nat);
    vstd::bits::lemma_u64_shl_is_mul(1u64, k);
}

/// The generator and offset of layer `layer_index`.
pub fn layer_params(config: &FriConfig, layer_index: usize) -> (r: (u64, u64))
    requires
        layer_index < 64,
    ensures
        r.0 == layer_generator(*config, layer_index as nat),
        r.1 == layer_offset(*config, layer_index as nat),
{
    let e = layer_index as u64;
    proof {
        lemma_shift_pow2(e);
    }
    let omega_k = gl_pow(config.domain_generator, 1u64 << e);
    let offset_k = gl_pow(config.domain_offset, 1u64 << e);
    (omega_k, offset_k)
}

/// Point `local_index` of the domain of layer `layer_index`.
pub fn domain_point_of(config: &FriConfig, layer_index: usize, local_index: usize) -> (x: u64)
    requires
        layer_index < 64,
    ensures
        x == domain_point(*config, layer_index as nat, local_index as nat),
{
    let (omega_k, offset_k) = layer_params(config, layer_index);
    gl_mul(offset_k, gl_pow(omega_k, local_index as u64))
}

/// `u` and `v` are congruent modulo `p` when they differ by a multiple of it.
proof fn lemma_congruent(u: int, v: int, k: int)
    requires
        u == v + k * p(),
    ensures
        u % p() == v % p(),
{
    lemma_mod_multiples_vanish(k, v, p());
    lemma_mul_is_commutative(k, p());
}

/// One word of a fold of `f(X) = a + X * b` evaluated at `x` and `-x`, with
/// `x_inv` an inverse of `x`, is `a + alpha * b`.
proof fn lemma_fold_word(a: int, b: int, x: int, x_inv: int, alpha: int)
    requires
        (x * x_inv) % p() == 1,
    ensures
        ({
            let fx = fadd(a, fmul(x, b));
            let fnx = fsub(a, fmul(x, b));
            let h = HALF_INV as int;
            fadd(fmul(fadd(fx, fnx), h), fmul(alpha, fmul(fsub(fx, fnx), fmul(h, x_inv))))
        }) == fadd(a, fmul(alpha, b)),
{
    let q = p();
    let h = HALF_INV as int;
    let xb = x * b;
    let fx = fadd(a, fmul(x, b));
    let fnx = fsub(a, fmul(x, b));
    assert(2 * h == q + 1);
    // f(x) = a + xb and f(-x) = a - xb, modulo p
    lemma_add_mod_noop_right(a, xb, q);
    lemma_sub_mod_noop_right(a, xb, q);
    lemma_mod_twice(a + xb, q);
    lemma_mod_twice(a - xb, q);
    // the even part: (f(x) + f(-x)) / 2 = a
    lemma_add_mod_noop(fx, fnx, q);
    lemma_add_mod_noop(a + xb, a - xb, q);
    let s = fadd(fx, fnx);
    assert(s == (2 * a) % q);
    lemma_mul_mod_noop_left(2 * a, h, q);
    assert((2 * a) * h == a + a * q) by (nonlinear_arith)
        requires
            2 * h == q + 1,
    ;
    lemma_congruent((2 * a) * h, a, a);
    let t1 = fmul(s, h);
    assert(t1 == a % q);
    // the odd part: (f(x) - f(-x)) / (2x) = b
    lemma_sub_mod_noop(fx, fnx, q);
    lemma_sub_mod_noop(a + xb, a - xb, q);
    let d = fsub(fx, fnx);
    assert(d == (2 * xb) % q);
    let hx = fmul(h, x_inv);
    lemma_mul_mod_noop(2 * xb, h * x_inv, q);
    lemma_mul_mod_noop_left(d, hx, q);
    lemma_mod_twice(2 * xb, q);
    lemma_mul_mod_noop_right(d, h * x_inv, q);
    let t = fmul(d, hx);
    assert(t == ((2 * xb) * (h * x_inv)) % q) by {
        lemma_mul_mod_noop(d, h * x_inv, q);
    }
    assert((2 * xb) * (h * x_inv) == (x * x_inv) * b + ((x * x_inv) * b) * q) by (nonlinear_arith)
        requires
            2 * h == q + 1,
            xb == x * b,
    ;
    lemma_congruent((2 * xb) * (h * x_inv), (x * x_inv) * b, (x * x_inv) * b);
    lemma_mul_mod_noop_left(x * x_inv, b, q);
    assert(t == b % q);
    let t2 = fmul(alpha, t);
    lemma_mul_mod_noop_right(alpha, b, q);
    assert(t2 == (alpha * b) % q);
    // the sum
    lemma_add_mod_noop(t1, t2, q);
    lemma_add_mod_noop(a, alpha * b, q);
    lemma_add_mod_noop_right(a, alpha * b, q);
    lemma_mod_twice(a, q);
    lemma_mod_twice(alpha * b, q);
}

/// Folding is the FRI step on linear polynomials: when `f_x` and `f_neg_x`
/// are `f(x)` and `f(-x)` for `f(X) = a + X * b` word by word, and `x_inv`
/// is an inverse of `x`, the fold with challenge `alpha` and `HALF_INV` is
/// `a + alpha * b` word by word.
pub proof fn lemma_fold_linear(
    a: Seq<u64>,
    b: Seq<u64>,
    x: int,
    x_inv: int,
    alpha: int,
    f_x: Seq<u64>,
    f_neg_x: Seq<u64>,
)
    requires
        a.len() == 4,
        b.len() == 4,
        f_x.len() == 4,
        f_neg_x.len() == 4,
        (x * x_inv) % p() == 1,
        forall|j: int| 0 <= j < 4 ==> f_x[j] == fadd(a[j] as int, fmul(x, b[j] as int)),
        forall|j: int| 0 <= j < 4 ==> f_neg_x[j] == fsub(a[j] as int, fmul(x, b[j] as int)),
    ensures
        forall|j: int|
            0 <= j < 4 ==> #[trigger] fold_spec(f_x, f_neg_x, alpha, HALF_INV as int, x_inv)[j]
                == fadd(a[j] as int, fmul(alpha, b[j] as int)),
{
    assert forall|j: int| 0 <= j < 4 implies #[trigger] fold_spec(
        f_x,
        f_neg_x,
        alpha,
        HALF_INV as int,
        x_inv,
    )[j] == fadd(a[j] as int, fmul(alpha, b[j] as int)) by {
        lemma_fold_word(a[j] as int, b[j] as int, x, x_inv, alpha);
    }
}

/// Powers of an invertible element are invertible: if `a * b = 1` then
/// `a^e * b^e = 1`, all mod `p`.
proof fn lemma_unit_pow(a: int, b: int, e: nat)
    requires
        (a * b) % p() == 1,
    ensures
        (fpow(a, e) * fpow(b, e)) % p() == 1,
{
    lemma_pow_distributes(a, b, e);
    lemma_pow_mod_noop(a * b, e, p());
    lemma1_pow(e);
    lemma_small_mod(1, p() as nat);
    lemma_mul_mod_noop(pow(a, e), pow(b, e), p());
}

/// Products of invertible elements are invertible.
proof fn lemma_unit_mul(a1: int, b1: int, a2: int, b2: int)
    requires
        (a1 * b1) % p() == 1,
        (a2 * b2) % p() == 1,
    ensures
        (fmul(a1, a2) * fmul(b1, b2)) % p() == 1,
{
    lemma_mul_mod_noop(a1 * a2, b1 * b2, p());
    assert((a1 * a2) * (b1 * b2) == (a1 * b1) * (a2 * b2)) by (nonlinear_arith);
    lemma_mul_mod_noop(a1 * b1, a2 * b2, p());
    lemma_small_mod(1, p() as nat);
}

/// When the generator and the offset are invertible mod `p`, so is every
/// layer generator, layer offset and domain point; in particular none of
/// them is zero.
pub proof fn lemma_invertible_domain(config: FriConfig, g_inv: int, s_inv: int)
    requires
        (config.domain_generator * g_inv) % p() == 1,
        (config.domain_offset * s_inv) % p() == 1,
    ensures
        forall|k: nat| #[trigger] layer_generator(config, k) != 0,
        forall|k: nat| #[trigger] layer_offset(config, k) != 0,
        forall|k: nat, i: nat| #[trigger] domain_point(config, k, i) != 0,
{
    let g = config.domain_generator as int;
    let s = config.domain_offset as int;
    assert forall|k: nat, i: nat| #![trigger domain_point(config, k, i)]
        layer_generator(config, k) != 0 && layer_offset(config, k) != 0 && domain_point(
            config,
            k,
            i,
        ) != 0 by {
        let gk = layer_generator(config, k);
        let sk = layer_offset(config, k);
        let gik = fpow(g_inv, pow2(k));
        let sik = fpow(s_inv, pow2(k));
        lemma_unit_pow(g, g_inv, pow2(k));
        lemma_unit_pow(s, s_inv, pow2(k));
        lemma_unit_pow(gk, gik, i);
        lemma_unit_mul(sk, sik, fpow(gk, i), fpow(gik, i));
    }
    assert forall|k: nat| #[trigger] layer_generator(config, k) != 0 by {
        assert(domain_point(config, k, 0) != 0);
    }
    assert forall|k: nat| #[trigger] layer_offset(config, k) != 0 by {
        assert(domain_point(config, k, 0) != 0);
    }
}

/// The prover's running inverse and the verifier's inverse of a domain point
/// agree: `s^-1 * (g^-1)^i == (s * g^i)^-1`.
pub proof fn lemma_x_inv_agrees(config: FriConfig, k: nat, i: nat)
    ensures
        prover_x_inv(config, k, i) == finv(domain_point(config, k, i)),
{
    let a = layer_offset(config, k);
    let b = layer_generator(config, k);
    let e = (p() - 2) as nat;
    let pb = pow(b, i);
    // finv(a * (b^i % p) % p) == (a^e * (b^i % p)^e) % p
    lemma_pow_mod_noop(a * (pb % p()), e, p());
    lemma_pow_distributes(a, pb % p(), e);
    lemma_mul_mod_noop(pow(a, e), pow(pb % p(), e), p());
    // (b^i % p)^e % p == (b^e % p)^i % p
    lemma_pow_mod_noop(pb, e, p());
    lemma_pow_multiplies(b, i, e);
    lemma_pow_multiplies(b, e, i);
    lemma_mul_is_commutative(i as int, e as int);
    lemma_pow_mod_noop(pow(b, e), i, p());
}

/// One more step of a geometric sequence in the field:
/// `(a * w^i) * w == a * w^(i + 1)`.
pub proof fn lemma_geometric_step(a: int, w: int, i: nat)
    ensures
        fmul(fmul(a, fpow(w, i)), w) == fmul(a, fpow(w, i + 1)),
{
    let pw = pow(w, i);
    lemma_pow_adds(w, i, 1);
    lemma_pow1(w);
    lemma_mul_mod_noop_left(a * (pw % p()), w, p());
    lemma_mul_mod_noop_right(a, pw, p());
    lemma_mul_is_associative(a, pw, w);
    lemma_mul_mod_noop_right(a, pw * w, p());
    lemma_mul_mod_noop_left(a * pw, w, p());
}

/// One more step of the prover's running inverse.
pub proof fn lemma_x_inv_step(config: FriConfig, k: nat, i: nat)
    ensures
        fmul(prover_x_inv(config, k, i), finv(layer_generator(config, k))) == prover_x_inv(
            config,
            k,
            i + 1,
        ),
{
    lemma_geometric_step(finv(layer_offset(config, k)), finv(layer_generator(config, k)), i);
}

/// The opening of one folding layer for one query: the pair of evaluations
/// at `x` and `-x`, each with its Merkle authentication path.
#[derive(Clone, Debug)]
pub struct FriLayerOpening {
    pub layer_index: usize,
    pub domain_size: usize,
    pub local_index: usize,
    pub x_index: usize,
    pub x_eval: Digest,
    pub x_proof: Vec<Digest>,
    pub neg_x_index: usize,
    pub neg_x_eval: Digest,
    pub neg_x_proof: Vec<Digest>,
}

/// All layer openings of one query.
#[derive(Clone, Debug)]
pub struct FriQuery {
    pub initial_index: usize,
    pub layers: Vec<FriLayerOpening>,
}

/// A FRI proof: the configuration, one Merkle root per layer, the final
/// codeword in the clear, and the query openings.
#[derive(Clone, Debug)]
pub struct FriProof {
    pub config: FriConfig,
    pub roots: Vec<Digest>,
    pub final_codeword: Vec<Digest>,
    pub queries: Vec<FriQuery>,
}

/// The value of a layer opening.
pub struct OpeningModel {
    pub layer_index: usize,
    pub domain_size: usize,
    pub local_index: usize,
    pub x_index: usize,
    pub x_eval: Seq<u64>,
    pub x_proof: Seq<Seq<u64>>,
    pub neg_x_index: usize,
    pub neg_x_eval: Seq<u64>,
    pub neg_x_proof: Seq<Seq<u64>>,
}

/// The value of a query.
pub struct QueryModel {
    pub initial_index: usize,
    pub layers: Seq<OpeningModel>,
}

/// The value of a proof.
pub struct ProofModel {
    pub config: FriConfig,
    pub roots: Seq<Seq<u64>>,
    pub final_codeword: Seq<Seq<u64>>,
    pub queries: Seq<QueryModel>,
}

impl View for FriLayerOpening {
    type V = OpeningModel;

    open spec fn view(&self) -> OpeningModel {
        OpeningModel {
            layer_index: self.layer_index,
            domain_size: self.domain_size,
            local_index: self.local_index,
            x_index: self.x_index,
            x_eval: self.x_eval@,
            x_proof: digests(self.x_proof@),
            neg_x_index: self.neg_x_index,
            neg_x_eval: self.neg_x_eval@,
            neg_x_proof: digests(self.neg_x_proof@),
        }
    }
}

/// The values of a sequence of openings.
pub open spec fn openings_view(s: Seq<FriLayerOpening>) -> Seq<OpeningModel> {
    s.map_values(|o: FriLayerOpening| o@)
}

impl View for FriQuery {
    type V = QueryModel;

    open spec fn view(&self) -> QueryModel {
        QueryModel { initial_index: self.initial_index, layers: openings_view(self.layers@) }
    }
}

/// The values of a sequence of queries.
pub open spec fn queries_view(s: Seq<FriQuery>) -> Seq<QueryModel> {
    s.map_values(|q: FriQuery| q@)
}

impl View for FriProof {
    type V = ProofModel;

    open spec fn view(&self) -> ProofModel {
        ProofModel {
            config: self.config,
            roots: digests(self.roots@),
            final_codeword: digests(self.final_codeword@),
            queries: queries_view(self.queries@),
        }
    }
}

} // verus!
