//! The butterfly network of `ntt` computes the discrete Fourier transform
//! whenever its root is a root of unity of the transform's order, that is,
//! `omega^(n/2) = -1` in the field.
use crate::field::{fadd, fmul, fpow, fsub, p};
use crate::merkle::is_pow2;
use crate::ntt::{
    bitrev_permute, lemma_log2_pow2, log2_floor, ntt_from, ntt_spec,
    rev_bits, stage_spec,
};
use vstd::arithmetic::div_mod::*;
use vstd::arithmetic::mul::*;
use vstd::arithmetic::power::*;
use vstd::arithmetic::power2::{
    lemma_pow2_adds, lemma_pow2_pos, lemma_pow2_subtracts, lemma_pow2_unfold, pow2,
};
use vstd::prelude::*;

verus! {

/// Term `m` of a strided transform: `x[r + stride * m] * w^(m * t)`.
pub open spec fn dft_term(x: Seq<u64>, r: nat, stride: nat, m: nat, w: int, t: nat) -> int {
    x[(r + stride * m) as int] * pow(w, m * t)
}

/// The first `count` terms of the transform at `t` of the entries
/// `x[r], x[r + stride], x[r + 2 * stride], ...`, as an integer.
pub open spec fn dft_sum(x: Seq<u64>, r: nat, stride: nat, count: nat, w: int, t: nat) -> int
    decreases count,
{
    if count == 0 {
        0
    } else {
        dft_sum(x, r, stride, (count - 1) as nat, w, t) + dft_term(
            x,
            r,
            stride,
            (count - 1) as nat,
            w,
            t,
        )
    }
}

/// Entry `k` of the discrete Fourier transform of `x` with root `omega`:
/// `sum_j x[j] * omega^(j * k)` in the field.
pub open spec fn dft_spec(x: Seq<u64>, omega: u64, k: nat) -> int {
    dft_sum(x, 0, 1, x.len(), omega as int, k) % p()
}

/// Splitting a transform into its even and odd terms.
proof fn lemma_dft_split(x: Seq<u64>, r: nat, s: nat, c: nat, w: int, t: nat)
    ensures
        dft_sum(x, r, s, 2 * c, w, t) == dft_sum(x, r, 2 * s, c, w, 2 * t) + pow(w, t) * dft_sum(
            x,
            r + s,
            2 * s,
            c,
            w,
            2 * t,
        ),
    decreases c,
{
    if c > 0 {
        let c1 = (c - 1) as nat;
        lemma_dft_split(x, r, s, c1, w, t);
        let m0 = (2 * c - 2) as nat;
        let m1 = (2 * c - 1) as nat;
        assert(dft_sum(x, r, s, 2 * c, w, t) == dft_sum(x, r, s, 2 * c1, w, t) + dft_term(
            x,
            r,
            s,
            m0,
            w,
            t,
        ) + dft_term(x, r, s, m1, w, t)) by {
            assert(((2 * c) - 1) as nat == m1);
            assert(dft_sum(x, r, s, 2 * c, w, t) == dft_sum(x, r, s, m1, w, t) + dft_term(
                x,
                r,
                s,
                m1,
                w,
                t,
            ));
            assert((m1 - 1) as nat == m0);
            assert(dft_sum(x, r, s, m1, w, t) == dft_sum(x, r, s, m0, w, t) + dft_term(
                x,
                r,
                s,
                m0,
                w,
                t,
            ));
            assert(m0 == 2 * c1);
        }
        assert(r + s * m0 == r + (2 * s) * c1 && m0 * t == c1 * (2 * t) && r + s * m1 == (r + s)
            + (2 * s) * c1 && m1 * t == t + c1 * (2 * t)) by (nonlinear_arith)
            requires
                m0 == 2 * c - 2,
                m1 == 2 * c - 1,
                c1 == c - 1,
                c > 0,
        ;
        lemma_pow_adds(w, t, c1 * (2 * t));
        let odd = dft_sum(x, r + s, 2 * s, c1, w, 2 * t);
        let xo = x[(r + s + (2 * s) * c1) as int] as int;
        let pc = pow(w, c1 * (2 * t));
        assert(pow(w, t) * odd + xo * (pow(w, t) * pc) == pow(w, t) * (odd + xo * pc))
            by (nonlinear_arith);
    }
}

/// Doubling the index is squaring the root.
proof fn lemma_dft_square(x: Seq<u64>, r: nat, s: nat, c: nat, w: int, t: nat)
    ensures
        dft_sum(x, r, s, c, w, 2 * t) == dft_sum(x, r, s, c, pow(w, 2), t),
    decreases c,
{
    if c > 0 {
        let m = (c - 1) as nat;
        lemma_dft_square(x, r, s, m, w, t);
        lemma_pow_multiplies(w, 2, m * t);
        assert(m * (2 * t) == 2 * (m * t)) by (nonlinear_arith);
    }
}

/// Congruent roots give congruent transforms.
proof fn lemma_dft_congruent_root(x: Seq<u64>, r: nat, s: nat, c: nat, a: int, b: int, t: nat)
    requires
        a % p() == b % p(),
    ensures
        dft_sum(x, r, s, c, a, t) % p() == dft_sum(x, r, s, c, b, t) % p(),
    decreases c,
{
    if c > 0 {
        let m = (c - 1) as nat;
        lemma_dft_congruent_root(x, r, s, m, a, b, t);
        let xi = x[(r + s * m) as int] as int;
        lemma_pow_mod_noop(a, m * t, p());
        lemma_pow_mod_noop(b, m * t, p());
        lemma_mul_mod_noop_right(xi, pow(a, m * t), p());
        lemma_mul_mod_noop_right(xi, pow(b, m * t), p());
        lemma_add_mod_noop(dft_sum(x, r, s, m, a, t), dft_term(x, r, s, m, a, t), p());
        lemma_add_mod_noop(dft_sum(x, r, s, m, b, t), dft_term(x, r, s, m, b, t), p());
    }
}

/// Shifting the index by `h` changes nothing when `w^(2h) = 1`.
proof fn lemma_dft_shift(x: Seq<u64>, r: nat, s: nat, c: nat, w: int, t: nat, h: nat)
    requires
        pow(w, 2 * h) % p() == 1,
    ensures
        dft_sum(x, r, s, c, w, 2 * (t + h)) % p() == dft_sum(x, r, s, c, w, 2 * t) % p(),
    decreases c,
{
    if c > 0 {
        let m = (c - 1) as nat;
        lemma_dft_shift(x, r, s, m, w, t, h);
        let xi = x[(r + s * m) as int] as int;
        assert(m * (2 * (t + h)) == m * (2 * t) + (2 * h) * m) by (nonlinear_arith);
        lemma_pow_adds(w, m * (2 * t), (2 * h) * m);
        lemma_pow_multiplies(w, 2 * h, m);
        lemma_pow_mod_noop(pow(w, 2 * h), m, p());
        lemma1_pow(m);
        let a = pow(w, m * (2 * t));
        let b = pow(pow(w, 2 * h), m);
        assert(b % p() == 1) by {
            lemma_small_mod(1, p() as nat);
        }
        lemma_mul_mod_noop_right(xi * a, b, p());
        lemma_mul_is_associative(xi, a, b);
        lemma_add_mod_noop(dft_sum(x, r, s, m, w, 2 * (t + h)), dft_term(x, r, s, m, w, 2 * (t + h)), p());
        lemma_add_mod_noop(dft_sum(x, r, s, m, w, 2 * t), dft_term(x, r, s, m, w, 2 * t), p());
    }
}


/// The first `s` stages applied to `a` (block lengths 2, 4, ..., 2^s).
pub open spec fn stages_upto(a: Seq<u64>, omega: u64, s: nat) -> Seq<u64>
    decreases s,
{
    if s == 0 {
        a
    } else {
        stage_spec(
            stages_upto(a, omega, (s - 1) as nat),
            pow2(s),
            fpow(omega as int, a.len() / pow2(s)),
        )
    }
}

proof fn lemma_stages_len(a: Seq<u64>, omega: u64, s: nat)
    ensures
        stages_upto(a, omega, s).len() == a.len(),
    decreases s,
{
    if s > 0 {
        lemma_stages_len(a, omega, (s - 1) as nat);
    }
}

/// Running the stages from `s` on, after the first `s - 1`, runs them all.
proof fn lemma_ntt_from_stages(a: Seq<u64>, omega: u64, s: nat, big_l: nat)
    requires
        1 <= s <= big_l + 1,
    ensures
        ntt_from(stages_upto(a, omega, (s - 1) as nat), omega, s, big_l) == stages_upto(
            a,
            omega,
            big_l,
        ),
    decreases big_l + 1 - s,
{
    lemma_stages_len(a, omega, (s - 1) as nat);
    if s <= big_l {
        lemma_ntt_from_stages(a, omega, s + 1, big_l);
    }
}

/// One butterfly in the first half of a block, in the field.
proof fn lemma_butterfly_plus(a1: int, a2: int, e: int, o: int, pw: int)
    requires
        a1 % p() == e % p(),
        a2 % p() == o % p(),
    ensures
        fadd(a1, fmul(a2, pw % p())) == (e + pw * o) % p(),
{
    lemma_mul_mod_noop_right(a2, pw, p());
    lemma_add_mod_noop_right(a1, a2 * pw, p());
    lemma_add_mod_noop(a1, a2 * pw, p());
    lemma_mul_mod_noop_left(a2, pw, p());
    lemma_mul_mod_noop_left(o, pw, p());
    lemma_add_mod_noop(e, o * pw, p());
    lemma_mul_is_commutative(o, pw);
}

/// One butterfly in the second half of a block, in the field, where `h`
/// stands for `-1`.
proof fn lemma_butterfly_minus(a1: int, a2: int, e: int, o: int, pw: int, h: int)
    requires
        a1 % p() == e % p(),
        a2 % p() == o % p(),
        h % p() == p() - 1,
    ensures
        fsub(a1, fmul(a2, pw % p())) == (e + (pw * h) * o) % p(),
{
    lemma_mul_mod_noop_right(a2, pw, p());
    lemma_sub_mod_noop_right(a1, a2 * pw, p());
    lemma_sub_mod_noop(a1, a2 * pw, p());
    lemma_mul_mod_noop_left(a2, pw, p());
    lemma_mul_mod_noop_left(o, pw, p());
    lemma_sub_mod_noop(e, o * pw, p());
    // (pw * h) * o == -(pw * o) + (pw * o) * (h + 1), and h + 1 is a multiple of p
    lemma_fundamental_div_mod(h, p());
    let q = h / p();
    assert(h + 1 == (q + 1) * p());
    assert((pw * h) * o == -(o * pw) + (o * pw * (q + 1)) * p()) by (nonlinear_arith)
        requires
            h + 1 == (q + 1) * p(),
    ;
    lemma_mod_multiples_vanish(o * pw * (q + 1), -(o * pw) + e, p());
    assert(e + (pw * h) * o == (o * pw * (q + 1)) * p() + (e - o * pw)) by (nonlinear_arith)
        requires
            (pw * h) * o == -(o * pw) + (o * pw * (q + 1)) * p(),
    ;
    lemma_mul_is_commutative(o * pw * (q + 1), p());
}

/// `rev_bits` of `2b` and `2b + 1` over `k + 1` bits.
proof fn lemma_rev_bits_children(b: nat, k: nat)
    ensures
        rev_bits(2 * b, k + 1) == rev_bits(b, k),
        rev_bits(2 * b + 1, k + 1) == pow2(k) + rev_bits(b, k),
{
    assert((2 * b) % 2 == 0 && (2 * b) / 2 == b);
    assert((2 * b + 1) % 2 == 1 && (2 * b + 1) / 2 == b);
    assert(rev_bits(2 * b, k + 1) == ((2 * b) % 2) * pow2(k) + rev_bits((2 * b) / 2, k));
    assert(rev_bits(2 * b + 1, k + 1) == ((2 * b + 1) % 2) * pow2(k) + rev_bits(
        (2 * b + 1) / 2,
        k,
    ));
}


/// `(e + c * o) mod p` depends only on `e mod p` and `o mod p`.
proof fn lemma_lin_congr(e1: int, e2: int, o1: int, o2: int, c: int)
    requires
        e1 % p() == e2 % p(),
        o1 % p() == o2 % p(),
    ensures
        (e1 + c * o1) % p() == (e2 + c * o2) % p(),
{
    lemma_mul_mod_noop_right(c, o1, p());
    lemma_mul_mod_noop_right(c, o2, p());
    lemma_add_mod_noop(e1, c * o1, p());
    lemma_add_mod_noop(e2, c * o2, p());
}

/// Powers of a reduced power: `(omega^a mod p)^m = omega^(a * m)` mod `p`.
proof fn lemma_pow_of_fpow(omega: int, a: nat, m: nat)
    ensures
        pow(fpow(omega, a), m) % p() == pow(omega, a * m) % p(),
{
    lemma_pow_mod_noop(pow(omega, a), m, p());
    lemma_pow_multiplies(omega, a, m);
}

/// The twiddle root of a stage raised to half the block length is `-1`,
/// and raised to the block length is `1`.
proof fn lemma_twiddle_powers(omega: u64, big_l: nat, s: nat)
    requires
        big_l >= 1,
        s + 1 <= big_l,
        fpow(omega as int, pow2((big_l - 1) as nat)) == p() - 1,
    ensures
        pow(fpow(omega as int, pow2((big_l - s - 1) as nat)), pow2(s)) % p() == p() - 1,
        pow(fpow(omega as int, pow2((big_l - s - 1) as nat)), pow2(s + 1)) % p() == 1,
{
    let k = (big_l - s - 1) as nat;
    let m = pow2((big_l - 1) as nat);
    lemma_pow_of_fpow(omega as int, pow2(k), pow2(s));
    lemma_pow_of_fpow(omega as int, pow2(k), pow2(s + 1));
    lemma_pow2_adds(k, s);
    lemma_pow2_adds(k, s + 1);
    lemma_pow2_unfold(big_l);
    assert(k + s == big_l - 1);
    assert(k + (s + 1) == big_l);
    // omega^(2m) = (omega^m)^2 = (p - 1)^2 = 1 mod p
    lemma_pow_multiplies(omega as int, m, 2);
    lemma_pow_mod_noop(pow(omega as int, m), 2, p());
    assert(m * 2 == pow2(big_l)) by (nonlinear_arith)
        requires
            pow2(big_l) == 2 * m,
    ;
    let q = p() - 1;
    assert(pow(q, 2) == q * q) by {
        lemma_pow_adds(q, 1, 1);
        lemma_pow1(q);
    }
    assert((q * q) % p() == 1) by {
        assert(q * q == (p() - 2) * p() + 1) by (nonlinear_arith)
            requires
                q == p() - 1,
        ;
        lemma_fundamental_div_mod_converse(q * q, p(), p() - 2, 1);
    }
}

/// The lower half of a block: the butterfly `a1 + w^t * a2` of the two
/// half-size transforms is the full-size transform at `t`.
proof fn lemma_block_lower(
    x: Seq<u64>,
    r: nat,
    q: nat,
    half: nat,
    wn: int,
    ws: int,
    t: nat,
    a1: int,
    a2: int,
)
    requires
        pow(wn, 2) % p() == ws % p(),
        a1 % p() == dft_sum(x, r, 2 * q, half, ws, t) % p(),
        a2 % p() == dft_sum(x, r + q, 2 * q, half, ws, t) % p(),
    ensures
        fadd(a1, fmul(a2, pow(wn, t) % p())) == dft_sum(x, r, q, 2 * half, wn, t) % p(),
{
    let ew = dft_sum(x, r, 2 * q, half, wn, 2 * t);
    let ow = dft_sum(x, r + q, 2 * q, half, wn, 2 * t);
    lemma_dft_square(x, r, 2 * q, half, wn, t);
    lemma_dft_square(x, r + q, 2 * q, half, wn, t);
    lemma_dft_congruent_root(x, r, 2 * q, half, pow(wn, 2), ws, t);
    lemma_dft_congruent_root(x, r + q, 2 * q, half, pow(wn, 2), ws, t);
    lemma_butterfly_plus(a1, a2, ew, ow, pow(wn, t));
    lemma_dft_split(x, r, q, half, wn, t);
}

/// The upper half of a block: the butterfly `a1 - w^t * a2` of the two
/// half-size transforms is the full-size transform at `t + half`, since
/// `w^half = -1` and `w^(2 half) = 1`.
proof fn lemma_block_upper(
    x: Seq<u64>,
    r: nat,
    q: nat,
    half: nat,
    wn: int,
    ws: int,
    t: nat,
    a1: int,
    a2: int,
)
    requires
        pow(wn, 2) % p() == ws % p(),
        pow(wn, half) % p() == p() - 1,
        pow(wn, 2 * half) % p() == 1,
        a1 % p() == dft_sum(x, r, 2 * q, half, ws, t) % p(),
        a2 % p() == dft_sum(x, r + q, 2 * q, half, ws, t) % p(),
    ensures
        fsub(a1, fmul(a2, pow(wn, t) % p())) == dft_sum(x, r, q, 2 * half, wn, t + half) % p(),
{
    let ew = dft_sum(x, r, 2 * q, half, wn, 2 * t);
    let ow = dft_sum(x, r + q, 2 * q, half, wn, 2 * t);
    lemma_dft_square(x, r, 2 * q, half, wn, t);
    lemma_dft_square(x, r + q, 2 * q, half, wn, t);
    lemma_dft_congruent_root(x, r, 2 * q, half, pow(wn, 2), ws, t);
    lemma_dft_congruent_root(x, r + q, 2 * q, half, pow(wn, 2), ws, t);
    let pw = pow(wn, t);
    let h = pow(wn, half);
    lemma_butterfly_minus(a1, a2, ew, ow, pw, h);
    lemma_dft_split(x, r, q, half, wn, t + half);
    lemma_dft_shift(x, r, 2 * q, half, wn, t, half);
    lemma_dft_shift(x, r + q, 2 * q, half, wn, t, half);
    lemma_pow_adds(wn, t, half);
    let e2 = dft_sum(x, r, 2 * q, half, wn, 2 * (t + half));
    let o2 = dft_sum(x, r + q, 2 * q, half, wn, 2 * (t + half));
    lemma_lin_congr(e2, ew, o2, ow, pw * h);
}

/// Entry `b * 2^s + t` after `s` stages of the butterfly network on the
/// bit-reversed input is the strided transform, with root `omega^(2^(L-s))`,
/// of the entries of `x` whose indices end in the reversed bits of `b`.
proof fn lemma_stage_dft(x: Seq<u64>, omega: u64, big_l: nat, s: nat, b: nat, t: nat)
    requires
        x.len() == pow2(big_l),
        big_l >= 1,
        fpow(omega as int, pow2((big_l - 1) as nat)) == p() - 1,
        s <= big_l,
        b < pow2((big_l - s) as nat),
        t < pow2(s),
    ensures
        b * pow2(s) + t < x.len(),
        (stages_upto(bitrev_permute(x, big_l), omega, s)[(b * pow2(s) + t) as int] as int) % p() == dft_sum(
            x,
            rev_bits(b, (big_l - s) as nat),
            pow2((big_l - s) as nat),
            pow2(s),
            fpow(omega as int, pow2((big_l - s) as nat)),
            t,
        ) % p(),
    decreases s,
{
    let a0 = bitrev_permute(x, big_l);
    let k = (big_l - s) as nat;
    lemma_pow2_adds(k, s);
    assert(k + s == big_l);
    assert(b * pow2(s) + t < x.len()) by (nonlinear_arith)
        requires
            b + 1 <= pow2(k),
            t < pow2(s),
            x.len() == pow2(k) * pow2(s),
    ;
    if s == 0 {
        vstd::arithmetic::power2::lemma2_to64();
        let w = fpow(omega as int, pow2(k));
        let r = rev_bits(b, k);
        assert(pow2(s) == 1);
        assert(t == 0);
        assert(b * pow2(s) + t == b) by (nonlinear_arith)
            requires
                pow2(s) == 1,
                t == 0,
        ;
        lemma_pow0(w);
        assert(dft_sum(x, r, pow2(k), 1, w, 0) == dft_sum(x, r, pow2(k), 0, w, 0) + dft_term(
            x,
            r,
            pow2(k),
            0,
            w,
            0,
        ));
        assert(r + pow2(k) * 0 == r);
    } else {
        let s1 = (s - 1) as nat;
        let half = pow2(s1);
        let len = pow2(s);
        let kk = (k + 1) as nat;
        let stride = pow2(kk);
        lemma_pow2_unfold(s);
        lemma_pow2_unfold(kk);
        lemma_pow2_pos(s1);
        lemma_pow2_pos(k);
        assert(big_l - s1 == kk);
        let prev = stages_upto(a0, omega, s1);
        lemma_stages_len(a0, omega, s1);
        // the twiddle roots of stages `s` and `s - 1`
        lemma_pow2_subtracts(s, big_l);
        let wn = fpow(omega as int, pow2(k));
        let ws = fpow(omega as int, stride);
        assert(a0.len() / pow2(s) == pow2(k));
        assert(stages_upto(a0, omega, s) == stage_spec(prev, len, wn));
        lemma_twiddle_powers(omega, big_l, s1);
        assert(big_l - s1 - 1 == k);
        // squaring the twiddle root of stage `s` gives that of stage `s - 1`
        lemma_pow_of_fpow(omega as int, pow2(k), 2);
        assert(pow2(k) * 2 == stride);
        lemma_small_mod(ws as nat, p() as nat);
        // the children of `b` in the bit-reversal tree
        lemma_rev_bits_children(b, k);
        let r = rev_bits(b, k);
        let i: int = (b * len + t) as int;
        lemma_fundamental_div_mod_converse(i, len as int, b as int, t as int);
        assert(i % (len as int) == t as int);
        assert(i - t == b * len);
        lemma_pow2_adds(k, 1);
        assert(stride == 2 * pow2(k));
        if t < half {
            lemma_stage_dft(x, omega, big_l, s1, 2 * b, t);
            lemma_stage_dft(x, omega, big_l, s1, 2 * b + 1, t);
            assert((2 * b) * half + t == i && (2 * b + 1) * half + t == i + half) by (nonlinear_arith)
                requires
                    i == b * len + t,
                    len == 2 * half,
            ;
            lemma_block_lower(x, r, pow2(k), half, wn, ws, t, prev[i] as int, prev[i + half] as int);
        } else {
            let t0 = (t - half) as nat;
            lemma_stage_dft(x, omega, big_l, s1, 2 * b, t0);
            lemma_stage_dft(x, omega, big_l, s1, 2 * b + 1, t0);
            assert((2 * b) * half + t0 == i - half && (2 * b + 1) * half + t0 == i) by (nonlinear_arith)
                requires
                    i == b * len + t,
                    len == 2 * half,
                    t0 == t - half,
            ;
            lemma_block_upper(x, r, pow2(k), half, wn, ws, t0, prev[i - half] as int, prev[i] as int);
        }
    }
}

/// The NTT is the discrete Fourier transform: when the length `n` of
/// `values` is a power of two of at least 2 and `omega^(n/2) = -1` in the
/// field (so `omega` has order `n`), entry `k` of the butterfly network's
/// output is `sum_j values[j] * omega^(j * k)` reduced mod `p`.
pub proof fn lemma_ntt_is_dft(values: Seq<u64>, omega: u64, k: nat)
    requires
        is_pow2(values.len()),
        values.len() >= 2,
        fpow(omega as int, values.len() / 2) == p() - 1,
        k < values.len(),
    ensures
        ntt_spec(values, omega)[k as int] == dft_spec(values, omega, k),
{
    let n = values.len();
    let big_l = log2_floor(n);
    lemma_log2_pow2(n);
    if big_l == 0 {
        vstd::arithmetic::power2::lemma2_to64();
    }
    assert(big_l >= 1);
    let l1 = (big_l - 1) as nat;
    lemma_pow2_unfold(big_l);
    assert(n / 2 == pow2(l1));
    let a0 = bitrev_permute(values, big_l);
    assert(stages_upto(a0, omega, 0) == a0);
    lemma_ntt_from_stages(a0, omega, 1, big_l);
    let out = stages_upto(a0, omega, big_l);
    assert(ntt_spec(values, omega) == out);
    vstd::arithmetic::power2::lemma2_to64();
    lemma_stage_dft(values, omega, big_l, big_l, 0, k);
    assert(0 * pow2(big_l) + k == k);
    assert(rev_bits(0, 0) == 0);
    // the entry is a butterfly output, already reduced
    lemma_stages_len(a0, omega, l1);
    let prev = stages_upto(a0, omega, l1);
    lemma_pow2_subtracts(big_l, big_l);
    assert(out == stage_spec(prev, pow2(big_l), fpow(omega as int, n / pow2(big_l))));
    assert((out[k as int] as int) < p());
    lemma_small_mod(out[k as int] as nat, p() as nat);
    // the root `omega mod p` against `omega`
    lemma_pow1(omega as int);
    lemma_mod_twice(omega as int, p());
    lemma_dft_congruent_root(values, 0, 1, n, fpow(omega as int, 1), omega as int, k);
}

} // verus!
