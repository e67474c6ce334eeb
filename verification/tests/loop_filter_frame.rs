//! The loop filter on whole frames.

use vp9dec::framebuffer::Plane;
use vp9dec::header::{LoopFilterParams, SegmentationParams};
use vp9dec::loop_filter::{adaptive_filter_strength, loop_filter_frame, sample_filtering};
use vp9dec::prob_tables::{BLOCK_64X64, BLOCK_8X8, TX_16X16, TX_32X32, TX_4X4, TX_8X8};
use vp9dec::tile::{MiGrid, MiInfo};

fn no_segmentation() -> SegmentationParams {
    SegmentationParams {
        enabled: false,
        update_map: false,
        tree_probs: [255; 7],
        pred_prob: [255; 3],
        temporal_update: false,
        abs_or_delta_update: false,
        feature_enabled: [[false; 4]; 8],
        feature_data: [[0; 4]; 8],
    }
}

fn params(level: u8) -> LoopFilterParams {
    LoopFilterParams {
        level,
        sharpness: 0,
        delta_enabled: false,
        ref_deltas: [0; 4],
        mode_deltas: [0; 2],
    }
}

fn grid(mi_size: u8, tx_size: u8) -> MiGrid {
    let mut g = MiGrid::new(8, 8);
    let mut info = MiInfo::default();
    info.mi_size = mi_size;
    info.tx_size = tx_size;
    for row in 0..8 {
        for col in 0..8 {
            g.set(row, col, info);
        }
    }
    g
}

/// Planes of one superblock in 4:2:0, with a step between columns 31 and 32 of
/// the luma plane.
fn stepped(low: u16, high: u16) -> [Plane; 3] {
    let mut planes = [Plane::new(64, 64), Plane::new(32, 32), Plane::new(32, 32)];
    for y in 0..64 {
        for x in 0..64 {
            planes[0].set(x, y, if x < 32 { low } else { high });
        }
    }
    planes
}

fn xorshift32(state: &mut u32) -> u32 {
    let mut x = *state;
    x ^= x << 13;
    x ^= x >> 17;
    x ^= x << 5;
    *state = x;
    x
}

#[test]
fn a_small_step_at_a_block_edge_is_smoothed() {
    let mut planes = stepped(100, 108);
    let g = grid(BLOCK_8X8, TX_8X8);
    loop_filter_frame(&mut planes, &g, 8, 8, 1, 1, &params(40), &no_segmentation(), 8);
    // A flat step goes through the wide filter of eight taps.
    let row: Vec<u16> = (28..36).map(|x| planes[0].get(x, 10)).collect();
    assert_eq!(row, vec![100, 101, 102, 103, 105, 106, 107, 108]);
    assert_eq!(planes[0].get(27, 10), 100);
    assert_eq!(planes[0].get(36, 10), 108);
}

#[test]
fn sixteen_taps_at_the_edges_of_large_transforms() {
    let mut planes = stepped(100, 108);
    let g = grid(BLOCK_64X64, TX_32X32);
    loop_filter_frame(&mut planes, &g, 8, 8, 1, 1, &params(40), &no_segmentation(), 8);
    let row: Vec<u16> = (24..40).map(|x| planes[0].get(x, 5)).collect();
    assert_eq!(
        row,
        vec![100, 101, 101, 102, 102, 103, 103, 104, 105, 105, 106, 106, 107, 107, 108, 108]
    );
}

#[test]
fn a_large_step_is_kept() {
    let mut planes = stepped(20, 220);
    let before = planes.clone();
    let g = grid(BLOCK_8X8, TX_8X8);
    loop_filter_frame(&mut planes, &g, 8, 8, 1, 1, &params(20), &no_segmentation(), 8);
    assert_eq!(planes[0].as_slice(), before[0].as_slice());
}

#[test]
fn level_zero_changes_nothing() {
    let mut planes = stepped(100, 108);
    let before = planes.clone();
    let g = grid(BLOCK_8X8, TX_4X4);
    loop_filter_frame(&mut planes, &g, 8, 8, 1, 1, &params(0), &no_segmentation(), 8);
    for p in 0..3 {
        assert_eq!(planes[p].as_slice(), before[p].as_slice());
    }
}

#[test]
fn skipped_inter_blocks_are_filtered_at_their_edges_only() {
    // The step lies inside the one block of the superblock.
    let mut planes = stepped(100, 108);
    let before = planes.clone();
    let mut g = grid(BLOCK_64X64, TX_8X8);
    for row in 0..8 {
        for col in 0..8 {
            let mut info = *g.get(row, col);
            info.skip = true;
            info.ref_frame = [1, 0];
            g.set(row, col, info);
        }
    }
    loop_filter_frame(&mut planes, &g, 8, 8, 1, 1, &params(40), &no_segmentation(), 8);
    assert_eq!(planes[0].as_slice(), before[0].as_slice());
}

#[test]
fn nothing_beyond_the_frame_is_filtered() {
    let mut planes = stepped(100, 108);
    let before = planes.clone();
    let g = grid(BLOCK_8X8, TX_8X8);
    // The frame is 32 samples wide: the step lies on its right edge.
    loop_filter_frame(&mut planes, &g, 4, 8, 1, 1, &params(40), &no_segmentation(), 8);
    assert_eq!(planes[0].as_slice(), before[0].as_slice());
}

#[test]
fn segments_have_their_own_levels() {
    let mut planes = stepped(100, 108);
    let before = planes.clone();
    let g = grid(BLOCK_8X8, TX_8X8);
    let mut seg = no_segmentation();
    seg.enabled = true;
    seg.abs_or_delta_update = true;
    seg.feature_enabled[0][1] = true;
    seg.feature_data[0][1] = 0;
    loop_filter_frame(&mut planes, &g, 8, 8, 1, 1, &params(40), &seg, 8);
    assert_eq!(planes[0].as_slice(), before[0].as_slice());
}

#[test]
fn strengths_depend_on_sharpness_and_bit_depth() {
    assert_eq!(adaptive_filter_strength(20, 3, 8), (6, 50, 1));
    assert_eq!(adaptive_filter_strength(40, 5, 8), (4, 88, 2));
    assert_eq!(adaptive_filter_strength(0, 7, 8), (1, 5, 0));
    assert_eq!(adaptive_filter_strength(20, 0, 10), (80, 256, 4));
}

/// The filter at one position, on a window of sixteen samples.
fn filtered(s: &[i32; 16], limit: i32, blimit: i32, thresh: i32, size: u8, shift: u32) -> [i32; 16] {
    let q = |k: usize| s[8 + k];
    let p = |k: usize| s[7 - k];
    let far = |a: i32, b: i32, t: i32| (a - b).abs() > t;
    let mut out = *s;
    if far(p(3), p(2), limit)
        || far(p(2), p(1), limit)
        || far(p(1), p(0), limit)
        || far(q(1), q(0), limit)
        || far(q(2), q(1), limit)
        || far(q(3), q(2), limit)
        || (p(0) - q(0)).abs() * 2 + (p(1) - q(1)).abs() / 2 > blimit
    {
        return out;
    }
    let one = 1 << shift;
    let flat = (1..4).all(|k| !far(p(k), p(0), one) && !far(q(k), q(0), one));
    let flat2 = (4..8).all(|k| !far(p(k), p(0), one) && !far(q(k), q(0), one));
    if size == TX_4X4 || !flat {
        let half = 128 << shift;
        let c = |v: i32| v.clamp(-half, half - 1);
        let (p1, p0, q0, q1) = (p(1) - half, p(0) - half, q(0) - half, q(1) - half);
        let hev = far(p(1), p(0), thresh) || far(q(1), q(0), thresh);
        let f = c((if hev { c(p1 - q1) } else { 0 }) + 3 * (q0 - p0));
        let f1 = c(f + 4) >> 3;
        let f2 = c(f + 3) >> 3;
        out[8] = c(q0 - f1) + half;
        out[7] = c(p0 + f2) + half;
        if !hev {
            let g = (f1 + 1) >> 1;
            out[9] = c(q1 - g) + half;
            out[6] = c(p1 + g) + half;
        }
    } else {
        let n: i32 = if size == TX_8X8 || !flat2 { 3 } else { 7 };
        let log = if n == 3 { 3 } else { 4 };
        for i in -n..n {
            let mut t = s[(8 + i) as usize];
            for j in -n..=n {
                t += s[(8 + (i + j).clamp(-(n + 1), n)) as usize];
            }
            out[(8 + i) as usize] = (t + (1 << (log - 1))) >> log;
        }
    }
    out
}

#[test]
fn single_positions_match_the_direct_computation() {
    let mut seed = 0x00C0_FFEEu32;
    for trial in 0..3000u32 {
        let shift = trial % 3 * 2;
        let bit_depth = 8 + shift as u8;
        let top = (256u32 << shift) - 1;
        let base = xorshift32(&mut seed) & top;
        let spread = [1u32, 2, 12, 60][(trial / 3 % 4) as usize] << shift;
        let mut s = [0i32; 16];
        for v in s.iter_mut() {
            *v = (base + xorshift32(&mut seed) % spread).min(top) as i32;
        }
        let limit = (xorshift32(&mut seed) % 64) as i32;
        let blimit = (xorshift32(&mut seed) % 200) as i32;
        let thresh = (xorshift32(&mut seed) % 16) as i32;
        let size = [TX_4X4, TX_8X8, TX_16X16][(xorshift32(&mut seed) % 3) as usize];
        let expected = filtered(&s, limit, blimit, thresh, size, shift);
        let mut across = Plane::new(16, 3);
        let mut down = Plane::new(3, 16);
        for k in 0..16 {
            across.set(k, 1, s[k] as u16);
            down.set(1, k, s[k] as u16);
        }
        sample_filtering(&mut across, 8, 1, 1, 0, limit, blimit, thresh, size, bit_depth);
        sample_filtering(&mut down, 1, 8, 0, 1, limit, blimit, thresh, size, bit_depth);
        for k in 0..16 {
            assert_eq!(across.get(k, 1) as i32, expected[k], "trial {trial}, tap {k}");
            assert_eq!(down.get(1, k) as i32, expected[k], "trial {trial}, tap {k}");
            assert_eq!(across.get(k, 0), 0);
            assert_eq!(down.get(0, k), 0);
        }
    }
}
