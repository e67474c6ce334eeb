//! Inverse transforms, held against real-valued ones.

use vp9dec::transform::{
    inverse_transform_adst_reconstruct, inverse_transform_dct_dct_reconstruct,
    inverse_transform_dct_dct_reconstruct_hbd, TxType,
};

fn xorshift32(state: &mut u32) -> u32 {
    let mut x = *state;
    x ^= x << 13;
    x ^= x >> 17;
    x ^= x << 5;
    *state = x;
    x
}

/// One real-valued inverse transform of a row.
fn inverse(input: &[f64], adst: bool) -> Vec<f64> {
    let n = input.len();
    let pi = std::f64::consts::PI;
    (0..n)
        .map(|i| {
            let mut sum = 0.0;
            for (k, &v) in input.iter().enumerate() {
                let basis = if !adst {
                    let c = ((2 * i + 1) as f64 * k as f64 * pi / (2 * n) as f64).cos();
                    if k == 0 {
                        0.5f64.sqrt()
                    } else {
                        c
                    }
                } else if n == 4 {
                    (pi * (i + 1) as f64 * (2 * k + 1) as f64 / 9.0).sin() * 2.0 * 2f64.sqrt() / 3.0
                } else {
                    (pi * (2 * i + 1) as f64 * (2 * k + 1) as f64 / (4 * n) as f64).sin()
                };
                sum += v * basis;
            }
            sum
        })
        .collect()
}

/// The real-valued residual of a block: rows first, then columns, scaled.
fn residual(coefs: &[i64], n0: usize, adst_rows: bool, adst_cols: bool) -> Vec<f64> {
    let mut rows: Vec<Vec<f64>> = Vec::new();
    for r in 0..n0 {
        let row: Vec<f64> = (0..n0).map(|c| coefs[r * n0 + c] as f64).collect();
        rows.push(inverse(&row, adst_rows));
    }
    let scale = match n0 {
        4 => 16.0,
        8 => 32.0,
        _ => 64.0,
    };
    let mut out = vec![0.0; n0 * n0];
    for c in 0..n0 {
        let col: Vec<f64> = (0..n0).map(|r| rows[r][c]).collect();
        for (r, v) in inverse(&col, adst_cols).into_iter().enumerate() {
            out[r * n0 + c] = v / scale;
        }
    }
    out
}

/// Random coefficients, fewer and smaller towards high frequencies.
fn random_coefs(n0: usize, size: i64, seed: &mut u32) -> Vec<i64> {
    (0..n0 * n0)
        .map(|i| {
            let (r, c) = (i / n0, i % n0);
            let v = xorshift32(seed) as i64;
            if v % 4 == 0 {
                ((v >> 3) % (2 * size + 1) - size) / (1 + r as i64 + c as i64)
            } else {
                0
            }
        })
        .collect()
}

/// Holds a reconstructed plane against the real-valued residual: the samples of
/// the block differ by at most one, the others not at all.
fn assert_close(
    before: &[u16],
    after: &[u16],
    width: usize,
    x: usize,
    y: usize,
    expected: &[f64],
    n0: usize,
    max: f64,
) {
    for (p, (&b, &a)) in before.iter().zip(after.iter()).enumerate() {
        let (py, px) = (p / width, p % width);
        if px >= x && px < x + n0 && py >= y && py < y + n0 {
            let e = (b as f64 + expected[(py - y) * n0 + px - x]).clamp(0.0, max);
            assert!(
                (a as f64 - e).abs() <= 1.01,
                "n0={n0} at ({px}, {py}): {a} instead of {e}"
            );
        } else {
            assert_eq!(a, b, "outside the block at ({px}, {py})");
        }
    }
}

#[test]
fn dct_blocks_match_real_arithmetic() {
    let mut seed = 0x1357_9bdfu32;
    for n in 2..=5u32 {
        let n0 = 1usize << n;
        for _ in 0..40 {
            let width = n0 + 7;
            let before: Vec<u16> = (0..width * (n0 + 3))
                .map(|_| (xorshift32(&mut seed) % 256) as u16)
                .collect();
            let coefs = random_coefs(n0, 3000, &mut seed);
            let mut after = before.clone();
            inverse_transform_dct_dct_reconstruct(&mut after, width, 5, 2, &coefs, n);
            let expected = residual(&coefs, n0, false, false);
            assert_close(&before, &after, width, 5, 2, &expected, n0, 255.0);
        }
    }
}

#[test]
fn high_bit_depth_dct_blocks_match_real_arithmetic() {
    let mut seed = 0x0246_8aceu32;
    for n in 2..=5u32 {
        let n0 = 1usize << n;
        for _ in 0..40 {
            let width = n0 + 2;
            let before: Vec<u16> = (0..width * n0)
                .map(|_| (xorshift32(&mut seed) % 4096) as u16)
                .collect();
            let coefs = random_coefs(n0, 60_000, &mut seed);
            let mut after = before.clone();
            inverse_transform_dct_dct_reconstruct_hbd(&mut after, width, 1, 0, &coefs, n, 12);
            let expected = residual(&coefs, n0, false, false);
            assert_close(&before, &after, width, 1, 0, &expected, n0, 4095.0);
        }
    }
}

#[test]
fn adst_blocks_match_real_arithmetic() {
    let mut seed = 0x7777_1234u32;
    let types = [
        (TxType::AdstDct, false, true),
        (TxType::DctAdst, true, false),
        (TxType::AdstAdst, true, true),
    ];
    for n in 2..=4u32 {
        let n0 = 1usize << n;
        for (tx_type, adst_rows, adst_cols) in types {
            for _ in 0..40 {
                let width = n0;
                let before: Vec<u16> = (0..width * n0)
                    .map(|_| (xorshift32(&mut seed) % 256) as u16)
                    .collect();
                let coefs = random_coefs(n0, 3000, &mut seed);
                let mut after = before.clone();
                inverse_transform_adst_reconstruct(&mut after, width, 0, 0, &coefs, n, tx_type);
                let expected = residual(&coefs, n0, adst_rows, adst_cols);
                assert_close(&before, &after, width, 0, 0, &expected, n0, 255.0);
            }
        }
    }
}

#[test]
fn a_block_without_coefficients_stays() {
    let mut seed = 99u32;
    for n in 2..=5u32 {
        let n0 = 1usize << n;
        let before: Vec<u16> = (0..n0 * n0)
            .map(|_| (xorshift32(&mut seed) % 256) as u16)
            .collect();
        let coefs = vec![0i64; n0 * n0];
        let mut after = before.clone();
        inverse_transform_dct_dct_reconstruct(&mut after, n0, 0, 0, &coefs, n);
        assert_eq!(after, before);
        inverse_transform_dct_dct_reconstruct_hbd(&mut after, n0, 0, 0, &coefs, n, 10);
        assert_eq!(after, before);
        if n <= 4 {
            inverse_transform_adst_reconstruct(&mut after, n0, 0, 0, &coefs, n, TxType::AdstAdst);
            assert_eq!(after, before);
        }
    }
}

#[test]
fn a_mean_coefficient_moves_the_whole_block() {
    // 1000 * 11585 / 16384 rounds to 707, then to 500; with 8 added, a
    // sixteenth of it is 31.
    let mut plane = vec![100u16; 16];
    let mut coefs = vec![0i64; 16];
    coefs[0] = 1000;
    inverse_transform_dct_dct_reconstruct(&mut plane, 4, 0, 0, &coefs, 2);
    assert_eq!(plane, vec![131u16; 16]);
}

#[test]
fn samples_are_limited_to_the_bit_depth() {
    let mut coefs = vec![0i64; 64];
    coefs[0] = 20_000;
    let mut plane = vec![200u16; 64];
    inverse_transform_dct_dct_reconstruct(&mut plane, 8, 0, 0, &coefs, 3);
    assert_eq!(plane, vec![255u16; 64]);
    coefs[0] = -20_000;
    inverse_transform_dct_dct_reconstruct(&mut plane, 8, 0, 0, &coefs, 3);
    assert_eq!(plane, vec![0u16; 64]);
    coefs[0] = 200_000;
    inverse_transform_dct_dct_reconstruct_hbd(&mut plane, 8, 0, 0, &coefs, 3, 10);
    assert_eq!(plane, vec![1023u16; 64]);
}
