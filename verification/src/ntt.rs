//! The CPU number-theoretic transform: an in-place radix-2
//! decimation-in-time butterfly network over the Goldilocks field.
use crate::field::{fadd, fmul, fpow, fsub, gl_add, gl_mul, gl_pow, gl_sub, p};
use crate::merkle::is_pow2;
use vstd::arithmetic::div_mod::*;
use vstd::arithmetic::mul::*;
use vstd::arithmetic::power::{lemma_pow0, lemma_pow1, lemma_pow_adds, pow};
use vstd::arithmetic::power2::{lemma_pow2_pos, lemma_pow2_unfold, pow2};
use vstd::prelude::*;

verus! {

/// The low `k` bits of `x`, in reverse order.
pub open spec fn rev_bits(x: nat, k: nat) -> nat
    decreases k,
{
    if k == 0 {
        0
    } else {
        (x % 2) * pow2((k - 1) as nat) + rev_bits(x / 2, (k - 1) as nat)
    }
}

/// What the shift loop of `bit_reverse` computes from `x` and the
/// accumulator `y` in `k` more steps, in `usize` arithmetic.
pub open spec fn bit_reverse_loop(x: usize, y: usize, k: nat) -> usize
    decreases k,
{
    if k == 0 {
        y
    } else {
        bit_reverse_loop(x / 2, (y * 2 + x % 2) as usize, (k - 1) as nat)
    }
}

/// Without wrap-around, the loop appends the reversed bits to `y`.
proof fn lemma_bit_reverse_loop(x: usize, y: usize, k: nat)
    requires
        y * pow2(k) + rev_bits(x as nat, k) <= usize::MAX,
    ensures
        bit_reverse_loop(x, y, k) == y * pow2(k) + rev_bits(x as nat, k),
    decreases k,
{
    if k == 0 {
        vstd::arithmetic::power2::lemma2_to64();
    } else {
        let k1 = (k - 1) as nat;
        lemma_pow2_unfold(k);
        lemma_pow2_pos(k1);
        let y2 = y * 2 + x % 2;
        assert(y2 * pow2(k1) + rev_bits((x / 2) as nat, k1) == y * pow2(k) + rev_bits(x as nat, k))
            by (nonlinear_arith)
            requires
                y2 == y * 2 + x % 2,
                pow2(k) == 2 * pow2(k1),
                rev_bits(x as nat, k) == (x % 2) * pow2(k1) + rev_bits((x / 2) as nat, k1),
        ;
        assert(y2 <= y2 * pow2(k1)) by (nonlinear_arith)
            requires
                pow2(k1) > 0,
                y2 >= 0,
        ;
        lemma_bit_reverse_loop(x / 2, y2 as usize, k1);
    }
}

/// The reversal of `k` bits is below `2^k`.
pub proof fn lemma_rev_bits_bound(x: nat, k: nat)
    ensures
        rev_bits(x, k) < pow2(k),
    decreases k,
{
    if k == 0 {
        vstd::arithmetic::power2::lemma2_to64();
    } else {
        let k1 = (k - 1) as nat;
        lemma_rev_bits_bound(x / 2, k1);
        lemma_pow2_unfold(k);
        assert((x % 2) * pow2(k1) <= pow2(k1)) by (nonlinear_arith)
            requires
                x % 2 <= 1,
        ;
    }
}

/// Reversing `k` bits of `b * 2^(k-1) + z` moves the top bit `b` to the
/// bottom.
proof fn lemma_rev_bits_top(b: nat, z: nat, k: nat)
    requires
        k >= 1,
        b < 2,
        z < pow2((k - 1) as nat),
    ensures
        rev_bits(b * pow2((k - 1) as nat) + z, k) == 2 * rev_bits(z, (k - 1) as nat) + b,
    decreases k,
{
    let k1 = (k - 1) as nat;
    let w = b * pow2(k1) + z;
    if k == 1 {
        vstd::arithmetic::power2::lemma2_to64();
        assert(z == 0);
        assert(w == b);
        assert(rev_bits(w, 1) == (w % 2) * pow2(0) + rev_bits(w / 2, 0));
    } else {
        let k2 = (k - 2) as nat;
        lemma_pow2_unfold(k1);
        assert(w % 2 == z % 2 && w / 2 == b * pow2(k2) + z / 2) by {
            assert(w == 2 * (b * pow2(k2) + z / 2) + z % 2) by (nonlinear_arith)
                requires
                    w == b * pow2(k1) + z,
                    pow2(k1) == 2 * pow2(k2),
                    z == 2 * (z / 2) + z % 2,
            ;
            lemma_fundamental_div_mod_converse(
                w as int,
                2,
                (b * pow2(k2) + z / 2) as int,
                (z % 2) as int,
            );
        }
        assert(z / 2 < pow2(k2));
        lemma_rev_bits_top(b, z / 2, k1);
        assert(rev_bits(w, k) == (w % 2) * pow2(k1) + rev_bits(w / 2, k1));
        assert(rev_bits(z, k1) == (z % 2) * pow2(k2) + rev_bits(z / 2, k2));
        assert((z % 2) * pow2(k1) == 2 * ((z % 2) * pow2(k2))) by (nonlinear_arith)
            requires
                pow2(k1) == 2 * pow2(k2),
        ;
    }
}

/// Reversing `k` bits twice gives back a number below `2^k`.
pub proof fn lemma_rev_bits_involution(x: nat, k: nat)
    requires
        x < pow2(k),
    ensures
        rev_bits(rev_bits(x, k), k) == x,
    decreases k,
{
    if k == 0 {
        vstd::arithmetic::power2::lemma2_to64();
    } else {
        let k1 = (k - 1) as nat;
        lemma_pow2_unfold(k);
        let q = x / 2;
        let b = x % 2;
        assert(q < pow2(k1));
        lemma_rev_bits_bound(q, k1);
        lemma_rev_bits_top(b, rev_bits(q, k1), k);
        lemma_rev_bits_involution(q, k1);
    }
}

/// Reverses the low `log_n` bits of `x`.
pub fn bit_reverse(x: usize, log_n: usize) -> (y: usize)
    ensures
        y == bit_reverse_loop(x, 0, log_n as nat),
        log_n <= usize::BITS ==> y == rev_bits(x as nat, log_n as nat),
{
    let mut xx = x;
    let mut y: usize = 0;
    for i in 0..log_n
        invariant
            bit_reverse_loop(x, 0, log_n as nat) == bit_reverse_loop(xx, y, (log_n - i) as nat),
    {
        assert(((y << 1usize) | (xx & 1usize)) == ((y * 2 + xx % 2) as usize)) by (bit_vector);
        assert(xx >> 1usize == xx / 2) by (bit_vector);
        y = (y << 1) | (xx & 1);
        xx >>= 1;
    }
    proof {
        if log_n <= usize::BITS {
            lemma_rev_bits_bound(x as nat, log_n as nat);
            vstd::arithmetic::power2::lemma2_to64();
            vstd::arithmetic::power2::lemma2_to64_rest();
            crate::fri::lemma_pow2_mono(log_n as nat, usize::BITS as nat);
            assert(pow2(usize::BITS as nat) == usize::MAX + 1);
            lemma_bit_reverse_loop(x, 0, log_n as nat);
        }
    }
    y
}


/// `log2` of a power of two (and of anything else, rounded down).
pub open spec fn log2_floor(n: nat) -> nat
    decreases n,
{
    if n <= 1 {
        0
    } else {
        1 + log2_floor(n / 2)
    }
}

/// A power of two is two to its `log2`.
pub proof fn lemma_log2_pow2(n: nat)
    requires
        is_pow2(n),
    ensures
        pow2(log2_floor(n)) == n,
    decreases n,
{
    if n == 1 {
        vstd::arithmetic::power2::lemma2_to64();
    } else {
        lemma_log2_pow2(n / 2);
        lemma_pow2_unfold(log2_floor(n));
    }
}

/// The exponent of a power of two.
pub fn exact_log2(n: usize) -> (k: usize)
    requires
        is_pow2(n as nat),
    ensures
        k == log2_floor(n as nat),
        pow2(k as nat) == n,
{
    let mut m = n;
    let mut k: usize = 0;
    while m > 1
        invariant
            is_pow2(m as nat),
            k + log2_floor(m as nat) == log2_floor(n as nat),
            k <= n,
            m <= n,
            k + m <= n,
        decreases m,
    {
        m = m / 2;
        k = k + 1;
    }
    proof {
        lemma_log2_pow2(n as nat);
    }
    k
}

/// The entries of `v` in bit-reversed order of their indices (`k` bits).
pub open spec fn bitrev_permute(v: Seq<u64>, k: nat) -> Seq<u64> {
    Seq::new(v.len(), |i: int| v[rev_bits(i as nat, k) as int])
}

/// One butterfly stage over blocks of `len`: in each block, entry `j` of the
/// first half becomes `a[j] + w^j * a[j + len/2]` and its partner in the
/// second half `a[j] - w^j * a[j + len/2]`.
pub open spec fn stage_spec(a: Seq<u64>, len: nat, w: int) -> Seq<u64> {
    let half = len / 2;
    Seq::new(
        a.len(),
        |i: int|
            {
                let j = i % (len as int);
                let s = i - j;
                if j < half {
                    fadd(a[s + j] as int, fmul(a[s + j + half] as int, fpow(w, j as nat))) as u64
                } else {
                    fsub(
                        a[s + j - half] as int,
                        fmul(a[s + j] as int, fpow(w, (j - half) as nat)),
                    ) as u64
                }
            },
    )
}

/// The stages `s..=big_l` (block length `2^s`, twiddle root
/// `omega^(n / 2^s)`) applied in turn.
pub open spec fn ntt_from(a: Seq<u64>, omega: u64, s: nat, big_l: nat) -> Seq<u64>
    decreases big_l + 1 - s,
{
    if s == 0 || s > big_l {
        a
    } else {
        ntt_from(
            stage_spec(a, pow2(s), fpow(omega as int, a.len() / pow2(s))),
            omega,
            s + 1,
            big_l,
        )
    }
}

/// The radix-2 decimation-in-time NTT of `values` with root `omega`: the
/// bit-reversal permutation, then every stage.
pub open spec fn ntt_spec(values: Seq<u64>, omega: u64) -> Seq<u64> {
    let big_l = log2_floor(values.len());
    ntt_from(bitrev_permute(values, big_l), omega, 1, big_l)
}

/// Where entry `k` comes from after the swaps for indices below `i`.
spec fn perm_source(k: nat, big_l: nat, i: nat) -> nat {
    if k < i || rev_bits(k, big_l) < i {
        rev_bits(k, big_l)
    } else {
        k
    }
}

/// Applies the bit-reversal permutation to a copy of `values`.
fn bit_reverse_permute(values: &[u64], log_n: usize) -> (a: Vec<u64>)
    requires
        pow2(log_n as nat) == values@.len(),
        log_n < usize::BITS,
    ensures
        a@ == bitrev_permute(values@, log_n as nat),
{
    let n = values.len();
    let ghost big_l = log_n as nat;
    let mut a: Vec<u64> = Vec::with_capacity(n);
    for i in 0..n
        invariant
            n == values@.len(),
            a@ =~= values@.take(i as int),
    {
        a.push(values[i]);
    }
    assert(values@.take(n as int) =~= values@);
    for i in 0..n
        invariant
            n == values@.len(),
            a@.len() == n,
            pow2(big_l) == n,
            big_l == log_n as nat,
            log_n < usize::BITS,
            forall|k: int|
                #![trigger a@[k]]
                0 <= k < n ==> a@[k] == values@[perm_source(k as nat, big_l, i as nat) as int],
    {
        let j = bit_reverse(i, log_n);
        proof {
            lemma_rev_bits_bound(i as nat, big_l);
            lemma_rev_bits_involution(i as nat, big_l);
            assert(log_n <= usize::BITS);
            assert(j == rev_bits(i as nat, big_l));
            assert(j < n);
        }
        if i < j {
            let t = a[i];
            let tj = a[j];
            a.set(i, tj);
            a.set(j, t);
        }
        proof {
            assert forall|k: int| 0 <= k < n implies #[trigger] a@[k]
                == values@[perm_source(k as nat, big_l, (i + 1) as nat) as int] by {
                lemma_rev_bits_bound(k as nat, big_l);
                lemma_rev_bits_involution(k as nat, big_l);
            }
        }
    }
    proof {
        assert forall|k: int| 0 <= k < n implies #[trigger] a@[k] == bitrev_permute(
            values@,
            big_l,
        )[k] by {
            lemma_rev_bits_bound(k as nat, big_l);
        }
    }
    assert(a@ =~= bitrev_permute(values@, big_l));
    a
}


/// Entry `start + r` of a block that starts at a multiple of `len` sits at
/// offset `r` of its block.
proof fn lemma_block_offset(start: int, r: int, len: int)
    requires
        len > 0,
        start >= 0,
        start % len == 0,
        0 <= r < len,
    ensures
        (start + r) % len == r,
        (start + r) - (start + r) % len == start,
{
    lemma_fundamental_div_mod(start, len);
    lemma_mul_is_commutative(len, start / len);
    lemma_fundamental_div_mod_converse(start + r, len, start / len, r);
}

/// `w^j * w` is `w^(j + 1)` in the field.
proof fn lemma_fpow_step(w: int, j: nat)
    ensures
        fmul(fpow(w, j), w) == fpow(w, j + 1),
{
    lemma_pow_adds(w, j, 1);
    lemma_pow1(w);
    lemma_mul_mod_noop_left(pow(w, j), w, p());
}

/// Applies one butterfly stage with blocks of `len` and twiddle root
/// `w_len`, in place.
fn ntt_stage(a: &mut Vec<u64>, len: usize, w_len: u64)
    requires
        len >= 2,
        len % 2 == 0,
        old(a)@.len() % (len as nat) == 0,
    ensures
        final(a)@ == stage_spec(old(a)@, len as nat, w_len as int),
{
    let ghost a0 = a@;
    let ghost sp = stage_spec(a0, len as nat, w_len as int);
    let n = a.len();
    let half = len / 2;
    let mut start: usize = 0;
    while start < n
        invariant
            a@.len() == n,
            n == a0.len(),
            n % len == 0,
            len >= 2,
            len % 2 == 0,
            half == len / 2,
            start % len == 0,
            start <= n,
            sp == stage_spec(a0, len as nat, w_len as int),
            forall|i: int| #![trigger a@[i]] 0 <= i < start ==> a@[i] == sp[i],
            forall|i: int| #![trigger a@[i]] start <= i < n ==> a@[i] == a0[i],
        decreases n - start,
    {
        proof {
            lemma_fundamental_div_mod(start as int, len as int);
            lemma_fundamental_div_mod(n as int, len as int);
            assert(start + len <= n) by (nonlinear_arith)
                requires
                    start == len * (start / len),
                    n == len * (n / len),
                    start < n,
                    len > 0,
            ;
        }
        let mut w: u64 = 1;
        proof {
            lemma_pow0(w_len as int);
            lemma_small_mod(1, p() as nat);
        }
        for j in 0..half
            invariant
                a@.len() == n,
                n == a0.len(),
                len >= 2,
                len % 2 == 0,
                half == len / 2,
                start % len == 0,
                start + len <= n,
                sp == stage_spec(a0, len as nat, w_len as int),
                w == fpow(w_len as int, j as nat),
                forall|i: int| #![trigger a@[i]] 0 <= i < start ==> a@[i] == sp[i],
                forall|i: int| #![trigger a@[i]] start + len <= i < n ==> a@[i] == a0[i],
                forall|r: int|
                    #![trigger a@[start + r]]
                    0 <= r < len ==> a@[start + r] == (if r < j || (half <= r < half + j) {
                        sp[start + r]
                    } else {
                        a0[start + r]
                    }),
        {
            let u = a[start + j];
            let v = gl_mul(a[start + j + half], w);
            proof {
                assert(a@[start + j] == a0[start + j]);
                assert(a@[start + (j + half)] == a0[start + j + half]);
                lemma_block_offset(start as int, j as int, len as int);
                lemma_block_offset(start as int, (j + half) as int, len as int);
                lemma_fpow_step(w_len as int, j as nat);
            }
            a.set(start + j, gl_add(u, v));
            a.set(start + j + half, gl_sub(u, v));
            w = gl_mul(w, w_len);
            proof {
                assert forall|r: int| 0 <= r < len implies #[trigger] a@[start + r] == (if r < j + 1
                    || (half <= r < half + j + 1) {
                    sp[start + r]
                } else {
                    a0[start + r]
                }) by {
                    if r == j {
                        assert(a@[start + r] == sp[start + r]);
                    } else if r == j + half {
                        assert(a@[start + r] == sp[start + r]);
                    }
                }
            }
        }
        proof {
            assert forall|i: int| #![trigger a@[i]] 0 <= i < start + len implies a@[i] == sp[i] by {
                if i >= start {
                    assert(a@[start + (i - start)] == sp[start + (i - start)]);
                }
            }
            assert forall|i: int| #![trigger a@[i]] start + len <= i < n implies a@[i] == a0[i] by {}
            lemma_mod_add_multiples_vanish(start as int, len as int);
        }
        start += len;
    }
    assert(a@ =~= sp);
}

/// The NTT of `values` with root `omega`, computed on the CPU: bit-reversal
/// permutation, then one butterfly stage per doubling of the block length.
pub fn cpu_ntt_radix2_dit(values: &[u64], omega: u64) -> (out: Vec<u64>)
    requires
        is_pow2(values@.len()),
        values@.len() <= usize::MAX / 2,
    ensures
        out@ == ntt_spec(values@, omega),
{
    let n = values.len();
    let log_n = exact_log2(n);
    proof {
        vstd::arithmetic::power2::lemma2_to64();
        vstd::arithmetic::power2::lemma2_to64_rest();
        if log_n >= usize::BITS {
            crate::fri::lemma_pow2_mono(usize::BITS as nat, log_n as nat);
            assert(usize::BITS == 32 || usize::BITS == 64);
        }
    }
    let mut a = bit_reverse_permute(values, log_n);
    let ghost big_l = log_n as nat;
    let ghost whole = ntt_spec(values@, omega);
    let mut len: usize = 2;
    let ghost mut s: nat = 1;
    while len <= n
        invariant
            a@.len() == n,
            n == values@.len(),
            n <= usize::MAX / 2,
            pow2(big_l) == n,
            big_l == log2_floor(n as nat),
            s >= 1,
            len == pow2(s),
            s <= big_l + 1,
            whole == ntt_spec(values@, omega),
            whole == ntt_from(a@, omega, s, big_l),
        decreases big_l + 1 - s,
    {
        proof {
            lemma_pow2_pos(big_l);
            if s > big_l {
                crate::fri::lemma_pow2_mono(big_l + 1, s);
                lemma_pow2_unfold(big_l + 1);
            }
            assert(s <= big_l);
            lemma_pow2_unfold(s);
            vstd::arithmetic::power2::lemma_pow2_adds(s, (big_l - s) as nat);
            lemma_mod_multiples_basic(pow2((big_l - s) as nat) as int, pow2(s) as int);
            lemma_mul_is_commutative(pow2((big_l - s) as nat) as int, pow2(s) as int);
            lemma_pow2_pos((s - 1) as nat);
        }
        let w_len = gl_pow(omega, (n / len) as u64);
        ntt_stage(&mut a, len, w_len);
        len = len * 2;
        proof {
            lemma_pow2_unfold(s + 1);
            s = s + 1;
        }
    }
    proof {
        if s <= big_l {
            crate::fri::lemma_pow2_mono(s, big_l);
        }
    }
    a
}

} // verus!
