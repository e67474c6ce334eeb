//! Inter prediction.

use vp9dec::framebuffer::Plane;
use vp9dec::predict::{block_inter_predict, predict_inter, InterPredictParams, RefPlaneView};
use vp9dec::prob_tables::{BLOCK_16X16, BLOCK_8X8, LAST_FRAME};
use vp9dec::subpel::{FilterBank, SubpelFilters};

fn xorshift32(state: &mut u32) -> u32 {
    let mut x = *state;
    x ^= x << 13;
    x ^= x >> 17;
    x ^= x << 5;
    *state = x;
    x
}

/// Linear interpolation between neighbouring samples.
fn linear() -> FilterBank {
    let mut bank = [[0i32; 8]; 16];
    for (i, taps) in bank.iter_mut().enumerate() {
        taps[3] = 128 - 8 * i as i32;
        taps[4] = 8 * i as i32;
    }
    bank
}

/// Taps of all eight kinds, which add up to 128 and copy at whole pixels.
fn wide() -> FilterBank {
    let mut bank = [[0i32; 8]; 16];
    for (i, taps) in bank.iter_mut().enumerate() {
        let i = i as i32;
        *taps = [-i / 4, i / 3, -i, 128 - 6 * i, 7 * i, -i / 2, i / 5, 0];
        let sum: i32 = taps.iter().sum();
        taps[3] += 128 - sum;
    }
    bank
}

fn random_plane(width: usize, height: usize, max: u32, seed: &mut u32) -> Plane {
    let mut p = Plane::new(width, height);
    for y in 0..height {
        for x in 0..width {
            p.set(x, y, (xorshift32(seed) % (max + 1)) as u16);
        }
    }
    p
}

/// The same prediction, sample by sample.
fn direct(
    p: &Plane,
    x: i64,
    y: i64,
    x_step: i64,
    y_step: i64,
    w: usize,
    h: usize,
    bank: &FilterBank,
    bit_depth: u8,
) -> Vec<i32> {
    let top = (1i64 << bit_depth) - 1;
    let row_sample = |pos: i64, row: i64| -> i64 {
        let mut sum = 0i64;
        for t in 0..8i64 {
            let sx = ((pos >> 4) + t - 3).clamp(0, p.width as i64 - 1) as usize;
            let sy = row.clamp(0, p.height as i64 - 1) as usize;
            sum += bank[(pos & 15) as usize][t as usize] as i64 * p.get(sx, sy) as i64;
        }
        ((sum + 64) >> 7).clamp(0, top)
    };
    let mut out = Vec::new();
    for r in 0..h as i64 {
        for c in 0..w as i64 {
            let px = x + x_step * c;
            let q = (y & 15) + y_step * r;
            let mut sum = 0i64;
            for t in 0..8i64 {
                sum += bank[(q & 15) as usize][t as usize] as i64
                    * row_sample(px, (y >> 4) + (q >> 4) + t - 3);
            }
            out.push(((sum + 64) >> 7).clamp(0, top) as i32);
        }
    }
    out
}

#[test]
fn whole_pixel_positions_copy_the_reference() {
    let mut seed = 5u32;
    let p = random_plane(20, 16, 255, &mut seed);
    for bank in [linear(), wide()] {
        let pred = block_inter_predict(&p, 16 * 3, 16 * 2, 16, 16, 8, 4, &bank, 8);
        for r in 0..4usize {
            for c in 0..8usize {
                assert_eq!(pred[r * 8 + c], p.get(3 + c, 2 + r) as i32);
            }
        }
    }
}

#[test]
fn edges_go_on_beyond_the_plane() {
    let mut seed = 6u32;
    let p = random_plane(9, 7, 255, &mut seed);
    let pred = block_inter_predict(&p, -16 * 40, 16 * 30, 16, 16, 4, 4, &wide(), 8);
    assert_eq!(pred, vec![p.get(0, 6) as i32; 16]);
}

#[test]
fn positions_between_pixels_are_interpolated() {
    let mut p = Plane::new(8, 8);
    for y in 0..8 {
        for x in 0..8 {
            p.set(x, y, 16 * x as u16 + 2 * y as u16);
        }
    }
    // A quarter of a pixel to the right and half a pixel down.
    let pred = block_inter_predict(&p, 16 * 2 + 4, 16 * 3 + 8, 16, 16, 2, 2, &linear(), 8);
    assert_eq!(pred, vec![32 + 4 + 6 + 1, 48 + 4 + 6 + 1, 32 + 4 + 8 + 1, 48 + 4 + 8 + 1]);
}

#[test]
fn all_steps_match_the_direct_computation() {
    let mut seed = 7u32;
    for bit_depth in [8u8, 10, 12] {
        let p = random_plane(40, 33, (1 << bit_depth) - 1, &mut seed);
        for bank in [linear(), wide()] {
            for (x_step, y_step) in [(16, 16), (8, 8), (32, 32), (20, 27), (16, 31)] {
                for _ in 0..6 {
                    let x = (xorshift32(&mut seed) % 1000) as i64 - 150;
                    let y = (xorshift32(&mut seed) % 900) as i64 - 150;
                    let got = block_inter_predict(&p, x, y, x_step, y_step, 8, 16, &bank, bit_depth);
                    let want = direct(&p, x, y, x_step, y_step, 8, 16, &bank, bit_depth);
                    assert_eq!(got, want);
                }
            }
        }
    }
}

#[test]
fn four_columns_are_the_leftmost_of_eight() {
    let mut seed = 0x1234_5678u32;
    let p = random_plane(40, 40, 255, &mut seed);
    for h in [4usize, 8] {
        for fx in [0i64, 5, 15] {
            for fy in [0i64, 8, 11] {
                let x = 8 * 16 + fx;
                let y = 8 * 16 + fy;
                let eight = block_inter_predict(&p, x, y, 16, 16, 8, h, &wide(), 8);
                let four = block_inter_predict(&p, x, y, 16, 16, 4, h, &wide(), 8);
                for r in 0..h {
                    assert_eq!(four[r * 4..r * 4 + 4], eight[r * 8..r * 8 + 4]);
                }
            }
        }
    }
}

fn params<'a>(
    mvs: &'a [[[i32; 2]; 4]; 2],
    filters: &'a SubpelFilters,
    refs: [Option<&'a RefPlaneView<'a>>; 2],
    second: u8,
) -> InterPredictParams<'a> {
    InterPredictParams {
        ref_frame: [LAST_FRAME, second],
        block_mvs: mvs,
        interp_filter: 0,
        mi_row: 1,
        mi_col: 1,
        mi_size: BLOCK_16X16,
        mi_rows: 8,
        mi_cols: 8,
        subsampling_x: 1,
        subsampling_y: 1,
        frame_width: 64,
        frame_height: 64,
        bit_depth: 8,
        refs,
        filters,
    }
}

#[test]
fn motion_vectors_move_the_block() {
    let mut seed = 8u32;
    let luma = random_plane(64, 64, 255, &mut seed);
    let filters = [linear(); 4];
    // 16 eighths down, 24 eighths to the left: two rows and three columns.
    let mvs = [[[16, -24]; 4]; 2];
    let view = RefPlaneView { plane: &luma, width: 64, height: 64 };
    let p = params(&mvs, &filters, [Some(&view), None], 0);
    let mut dst = Plane::new(64, 64);
    predict_inter(&mut dst, 0, 8, 8, 16, 16, 0, &p);
    for y in 0..64 {
        for x in 0..64 {
            let expected = if (8..24).contains(&x) && (8..24).contains(&y) {
                luma.get(x - 3, y + 2)
            } else {
                0
            };
            assert_eq!(dst.get(x, y), expected);
        }
    }
}

#[test]
fn chroma_moves_half_as_far() {
    let mut seed = 9u32;
    let chroma = random_plane(32, 32, 255, &mut seed);
    let filters = [linear(); 4];
    let mvs = [[[16, -32]; 4]; 2];
    let view = RefPlaneView { plane: &chroma, width: 64, height: 64 };
    let p = params(&mvs, &filters, [Some(&view), None], 0);
    let mut dst = Plane::new(32, 32);
    predict_inter(&mut dst, 1, 4, 4, 8, 8, 0, &p);
    for i in 0..8 {
        for j in 0..8 {
            assert_eq!(dst.get(4 + j, 4 + i), chroma.get(4 + j - 2, 4 + i + 1));
        }
    }
}

#[test]
fn two_references_are_averaged() {
    let mut seed = 10u32;
    let a = random_plane(64, 64, 255, &mut seed);
    let b = random_plane(64, 64, 255, &mut seed);
    let filters = [linear(); 4];
    let mvs = [[[0, 0]; 4], [[8, 8]; 4]];
    let va = RefPlaneView { plane: &a, width: 64, height: 64 };
    let vb = RefPlaneView { plane: &b, width: 64, height: 64 };
    let p = params(&mvs, &filters, [Some(&va), Some(&vb)], 2);
    let mut dst = Plane::new(64, 64);
    predict_inter(&mut dst, 0, 8, 8, 16, 16, 0, &p);
    for i in 0..16 {
        for j in 0..16 {
            let sum = a.get(8 + j, 8 + i) + b.get(9 + j, 9 + i);
            assert_eq!(dst.get(8 + j, 8 + i), (sum + 1) / 2);
        }
    }
}

#[test]
fn a_reference_of_twice_the_size_is_read_in_steps_of_two() {
    let mut seed = 11u32;
    let big = random_plane(128, 128, 255, &mut seed);
    let filters = [linear(); 4];
    let mvs = [[[0, 0]; 4]; 2];
    let view = RefPlaneView { plane: &big, width: 128, height: 128 };
    let p = params(&mvs, &filters, [Some(&view), None], 0);
    let mut dst = Plane::new(64, 64);
    predict_inter(&mut dst, 0, 8, 8, 16, 16, 0, &p);
    for i in 0..16 {
        for j in 0..16 {
            assert_eq!(dst.get(8 + j, 8 + i), big.get(2 * (8 + j), 2 * (8 + i)));
        }
    }
}

#[test]
fn chroma_of_small_blocks_averages_the_vectors() {
    let mut seed = 12u32;
    let chroma = random_plane(32, 32, 255, &mut seed);
    let filters = [linear(); 4];
    // The mean of the four vectors is (16, 16): one chroma row and column.
    let mvs = [[[0, 16], [32, 16], [16, 0], [16, 32]]; 2];
    let view = RefPlaneView { plane: &chroma, width: 64, height: 64 };
    let mut p = params(&mvs, &filters, [Some(&view), None], 0);
    p.mi_size = BLOCK_8X8 - 1;
    let mut dst = Plane::new(32, 32);
    predict_inter(&mut dst, 1, 4, 4, 4, 4, 0, &p);
    for i in 0..4 {
        for j in 0..4 {
            assert_eq!(dst.get(4 + j, 4 + i), chroma.get(5 + j, 5 + i));
        }
    }
}

#[test]
fn vectors_far_outside_are_limited() {
    let mut seed = 13u32;
    let luma = random_plane(64, 64, 255, &mut seed);
    let filters = [linear(); 4];
    let mvs = [[[-100_000, -100_000]; 4]; 2];
    let view = RefPlaneView { plane: &luma, width: 64, height: 64 };
    let p = params(&mvs, &filters, [Some(&view), None], 0);
    let mut dst = Plane::new(64, 64);
    predict_inter(&mut dst, 0, 8, 8, 16, 16, 0, &p);
    for i in 0..16 {
        for j in 0..16 {
            assert_eq!(dst.get(8 + j, 8 + i), luma.get(0, 0));
        }
    }
}

#[test]
fn samples_fit_the_bit_depth() {
    // Samples at both ends of the range make the filters overshoot.
    let mut seed = 77u32;
    for bit_depth in [8u8, 10, 12] {
        let max = (1i32 << bit_depth) - 1;
        let mut p = Plane::new(24, 24);
        for y in 0..24 {
            for x in 0..24 {
                p.set(x, y, if xorshift32(&mut seed) & 1 == 0 { 0 } else { max as u16 });
            }
        }
        for frac in 0..16 {
            let (x, y) = (16 * 4 + frac, 16 * 4 + 15 - frac);
            let pred = block_inter_predict(&p, x, y, 16, 16, 8, 8, &wide(), bit_depth);
            assert!(pred.iter().all(|&v| 0 <= v && v <= max));
        }
    }
}

#[test]
fn away_from_the_edges_the_taps_apply_as_they_stand() {
    let mut seed = 5u32;
    let p = random_plane(20, 20, 255, &mut seed);
    let bank = wide();
    let (across, down) = (bank[5], bank[11]);
    let clip = |v: i32| ((v + 64) >> 7).clamp(0, 255);
    let pred = block_inter_predict(&p, 16 * 6 + 5, 16 * 7 + 11, 16, 16, 4, 4, &bank, 8);
    for r in 0..4usize {
        for c in 0..4usize {
            let mut sum = 0i32;
            for i in 0..8usize {
                let mut row = 0i32;
                for j in 0..8usize {
                    row += across[j] * p.get(6 + c + j - 3, 7 + r + i - 3) as i32;
                }
                sum += down[i] * clip(row);
            }
            assert_eq!(pred[r * 4 + c], clip(sum));
        }
    }
}

#[test]
fn an_empty_block_has_no_samples() {
    let mut seed = 3u32;
    let luma = random_plane(64, 64, 255, &mut seed);
    assert!(block_inter_predict(&luma, 5, 9, 16, 16, 0, 8, &wide(), 8).is_empty());
    assert!(block_inter_predict(&luma, 5, 9, 32, 32, 8, 0, &wide(), 8).is_empty());
    let filters = [wide(); 4];
    let mvs = [[[3, -5]; 4]; 2];
    let view = RefPlaneView { plane: &luma, width: 64, height: 64 };
    let p = params(&mvs, &filters, [Some(&view), Some(&view)], 2);
    let before = random_plane(16, 16, 255, &mut seed);
    for (x, y, w, h) in [(8, 8, 0, 8), (8, 8, 8, 0), (16, 16, 0, 0)] {
        let mut dst = before.clone();
        predict_inter(&mut dst, 0, x, y, w, h, 0, &p);
        assert_eq!(dst.crop(16, 16), before.crop(16, 16));
    }
}
