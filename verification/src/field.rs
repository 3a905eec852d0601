//! Arithmetic in the Goldilocks prime field, p = 2^64 - 2^32 + 1.
//!
//! Every operation accepts arbitrary `u64` inputs (not necessarily reduced)
//! and returns the canonical representative in `[0, p)`.
use vstd::arithmetic::div_mod::*;
use vstd::arithmetic::mul::*;
use vstd::arithmetic::power::*;
use vstd::prelude::*;

verus! {

/// The Goldilocks prime `2^64 - 2^32 + 1`.
pub const GOLDILOCKS_PRIME: u64 = 0xFFFFFFFF00000001;

/// The inverse of two in the field, `(p + 1) / 2`.
pub const HALF_INV: u64 = 0x7FFFFFFF80000001;

/// The field modulus as a mathematical integer.
pub open spec fn p() -> int {
    GOLDILOCKS_PRIME as int
}

/// Field addition on integers, reduced to `[0, p)`.
pub open spec fn fadd(a: int, b: int) -> int {
    (a + b) % p()
}

/// Field subtraction on integers, reduced to `[0, p)`.
pub open spec fn fsub(a: int, b: int) -> int {
    (a - b) % p()
}

/// Field multiplication on integers, reduced to `[0, p)`.
pub open spec fn fmul(a: int, b: int) -> int {
    (a * b) % p()
}

/// `b^e` reduced to `[0, p)`.
pub open spec fn fpow(b: int, e: nat) -> int {
    pow(b, e) % p()
}

/// The inverse that Fermat's little theorem gives: `a^(p - 2)` reduced.
pub open spec fn finv(a: int) -> int {
    fpow(a, (p() - 2) as nat)
}

/// Adds two field elements.
pub fn gl_add(a: u64, b: u64) -> (r: u64)
    ensures
        r == fadd(a as int, b as int),
        r < GOLDILOCKS_PRIME,
{
    let a_r: u128 = a as u128 % GOLDILOCKS_PRIME as u128;
    let b_r: u128 = b as u128 % GOLDILOCKS_PRIME as u128;
    proof {
        lemma_add_mod_noop(a as int, b as int, p());
    }
    ((a_r + b_r) % GOLDILOCKS_PRIME as u128) as u64
}

/// Subtracts `b` from `a` in the field.
pub fn gl_sub(a: u64, b: u64) -> (r: u64)
    ensures
        r == fsub(a as int, b as int),
        r < GOLDILOCKS_PRIME,
{
    let a_r: u128 = a as u128 % GOLDILOCKS_PRIME as u128;
    let b_r: u128 = b as u128 % GOLDILOCKS_PRIME as u128;
    proof {
        lemma_sub_mod_noop(a as int, b as int, p());
        lemma_mod_add_multiples_vanish(a_r - b_r, p());
    }
    ((a_r + GOLDILOCKS_PRIME as u128 - b_r) % GOLDILOCKS_PRIME as u128) as u64
}

/// Multiplies two field elements.
pub fn gl_mul(a: u64, b: u64) -> (r: u64)
    ensures
        r == fmul(a as int, b as int),
        r < GOLDILOCKS_PRIME,
{
    let a_r: u128 = a as u128 % GOLDILOCKS_PRIME as u128;
    let b_r: u128 = b as u128 % GOLDILOCKS_PRIME as u128;
    proof {
        lemma_mul_mod_noop(a as int, b as int, p());
        assert(a_r * b_r <= (GOLDILOCKS_PRIME as int - 1) * (GOLDILOCKS_PRIME as int - 1))
            by (nonlinear_arith)
            requires
                a_r < GOLDILOCKS_PRIME,
                b_r < GOLDILOCKS_PRIME,
        ;
    }
    ((a_r * b_r) % GOLDILOCKS_PRIME as u128) as u64
}


/// One step of square-and-multiply keeps `res * b^e` unchanged modulo p.
proof fn lemma_pow_step(res: int, b: int, e: nat)
    ensures
        (res * pow(b, e)) % p() == ((if e % 2 == 1 { (res * b) % p() } else { res }) * pow(
            (b * b) % p(),
            e / 2,
        )) % p(),
{
    let h = e / 2;
    let bit = e % 2;
    let bb = b * b;
    assert(e == 2 * h + bit);
    lemma_pow_adds(b, 2 * h, bit);
    lemma_pow_multiplies(b, 2, h);
    lemma_square_is_pow2(b);
    lemma_pow_mod_noop(bb, h, p());
    let q = pow(bb, h);
    assert(pow(b, e) == pow(b, bit) * q);
    lemma_mul_mod_noop_right(res * pow(b, bit), q, p());
    lemma_mul_mod_noop_right(res * pow(b, bit), pow(bb % p(), h), p());
    assert(res * pow(b, e) == (res * pow(b, bit)) * q) by {
        lemma_mul_is_associative(res, pow(b, bit), q);
    }
    if bit == 1 {
        lemma_pow1(b);
        lemma_mul_mod_noop_left(res * b, pow(bb % p(), h), p());
    } else {
        lemma_pow0(b);
    }
}

/// Raises `base` to the power `exp` by square-and-multiply.
pub fn gl_pow(base: u64, exp: u64) -> (r: u64)
    ensures
        r == fpow(base as int, exp as nat),
        r < GOLDILOCKS_PRIME,
{
    let mut b: u64 = base;
    let mut e: u64 = exp;
    let mut res: u64 = 1;
    while e > 0
        invariant
            (res * pow(b as int, e as nat)) % p() == fpow(base as int, exp as nat),
            res < GOLDILOCKS_PRIME,
        decreases e,
    {
        proof {
            lemma_pow_step(res as int, b as int, e as nat);
            assert(e & 1 == e % 2) by (bit_vector);
            assert(e >> 1 == e / 2) by (bit_vector);
        }
        if e & 1 == 1 {
            res = gl_mul(res, b);
        }
        b = gl_mul(b, b);
        e >>= 1;
    }
    proof {
        lemma_pow0(b as int);
        lemma_small_mod(res as nat, p() as nat);
    }
    res
}

/// Inverts a nonzero field element as `a^(p - 2)`.
pub fn gl_inv(a: u64) -> (r: u64)
    requires
        a != 0,
    ensures
        r == finv(a as int),
        r < GOLDILOCKS_PRIME,
{
    gl_pow(a, GOLDILOCKS_PRIME - 2)
}

} // verus!
