use qingming_zkp_rs::field::{gl_add, gl_inv, gl_mul, gl_pow, gl_sub, GOLDILOCKS_PRIME, HALF_INV};
use qingming_zkp_rs::fri::fold_pair;
use qingming_zkp_rs::ntt::{bit_reverse, cpu_ntt_radix2_dit, exact_log2};

const P: u64 = GOLDILOCKS_PRIME;

#[test]
fn test_gl_add_values() {
    assert_eq!(gl_add(1, 2), 3);
    assert_eq!(gl_add(P - 1, 2), 1);
    assert_eq!(gl_add(P, 5), 5);
    assert_eq!(gl_add(u64::MAX, u64::MAX), ((u64::MAX as u128 * 2) % P as u128) as u64);
}

#[test]
fn test_gl_sub_values() {
    assert_eq!(gl_sub(5, 3), 2);
    assert_eq!(gl_sub(0, 1), P - 1);
    assert_eq!(gl_sub(3, P + 3), 0);
}

#[test]
fn test_gl_mul_values() {
    assert_eq!(gl_mul(6, 7), 42);
    // 2^32 * 2^32 = 2^64 = 2^32 - 1 (mod p)
    assert_eq!(gl_mul(1 << 32, 1 << 32), (1u64 << 32) - 1);
    assert_eq!(gl_mul(P - 1, P - 1), 1);
}

#[test]
fn test_gl_pow_values() {
    assert_eq!(gl_pow(2, 10), 1024);
    assert_eq!(gl_pow(5, 0), 1);
    assert_eq!(gl_pow(0, 0), 1);
    assert_eq!(gl_pow(7, P - 1), 1);
    assert_eq!(gl_pow(2, 64), (1u64 << 32) - 1);
}

#[test]
fn test_gl_inv_values() {
    for a in [1u64, 2, 7, 12345, P - 1, u64::MAX] {
        assert_eq!(gl_mul(a, gl_inv(a)), 1);
    }
    assert_eq!(gl_inv(2), HALF_INV);
}

#[test]
fn test_bit_reverse_values() {
    assert_eq!(bit_reverse(1, 3), 4);
    assert_eq!(bit_reverse(6, 3), 3);
    assert_eq!(bit_reverse(0b1011, 4), 0b1101);
    assert_eq!(bit_reverse(5, 0), 0);
    for i in 0..64usize {
        assert_eq!(bit_reverse(bit_reverse(i, 6), 6), i);
    }
}

#[test]
fn test_exact_log2_values() {
    assert_eq!(exact_log2(1), 0);
    assert_eq!(exact_log2(2), 1);
    assert_eq!(exact_log2(1024), 10);
}

fn naive_dft(values: &[u64], omega: u64) -> Vec<u64> {
    let n = values.len();
    (0..n)
        .map(|k| {
            let mut acc = 0u64;
            for (j, v) in values.iter().enumerate() {
                acc = gl_add(acc, gl_mul(*v, gl_pow(omega, (j * k) as u64)));
            }
            acc
        })
        .collect()
}

#[test]
fn test_cpu_ntt_constant_input() {
    let n = 8usize;
    let omega = gl_pow(7, (P - 1) / n as u64);
    let out = cpu_ntt_radix2_dit(&vec![1u64; n], omega);
    assert_eq!(out, vec![8, 0, 0, 0, 0, 0, 0, 0]);
}

#[test]
fn test_cpu_ntt_delta_input() {
    let n = 4usize;
    let omega = gl_pow(7, (P - 1) / n as u64);
    let out = cpu_ntt_radix2_dit(&[1, 0, 0, 0], omega);
    assert_eq!(out, vec![1, 1, 1, 1]);
}

#[test]
fn test_cpu_ntt_matches_naive_dft() {
    for log_n in 0..6usize {
        let n = 1usize << log_n;
        let omega = gl_pow(7, (P - 1) / n as u64);
        let values: Vec<u64> = (0..n).map(|i| (i as u64) * 1_000_003 + 17).collect();
        assert_eq!(cpu_ntt_radix2_dit(&values, omega), naive_dft(&values, omega));
    }
}

#[test]
fn test_cpu_ntt_single_point() {
    assert_eq!(cpu_ntt_radix2_dit(&[42], 9), vec![42]);
}

#[test]
fn test_fold_pair_of_linear_polynomial() {
    let a: [u64; 4] = [3, P - 5, 123456789, 1 << 40];
    let b: [u64; 4] = [11, 0, P - 1, 987654321];
    for &(x, alpha) in &[(7u64, 5u64), (P - 2, 123), (1 << 33, P - 9)] {
        let x_inv = gl_inv(x);
        assert_eq!(gl_mul(x, x_inv), 1);
        let mut fx = [0u64; 4];
        let mut fnx = [0u64; 4];
        for j in 0..4 {
            fx[j] = gl_add(a[j], gl_mul(x, b[j]));
            fnx[j] = gl_sub(a[j], gl_mul(x, b[j]));
        }
        let out = fold_pair(&fx, &fnx, alpha, HALF_INV, x_inv);
        for j in 0..4 {
            assert_eq!(out[j], gl_add(a[j], gl_mul(alpha, b[j])));
        }
    }
}
