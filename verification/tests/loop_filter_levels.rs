//! Levels and strengths of the loop filter.

use vp9dec::common::{INTRA_FRAME, MAX_SEGMENTS};
use vp9dec::framebuffer::Plane;
use vp9dec::header::{LoopFilterParams, SegmentationParams, SEG_LVL_ALT_L};
use vp9dec::loop_filter::{adaptive_filter_strength, build_lvl_lookup, narrow_filter, round2};

#[test]
fn loop_filter_round2_matches_spec_formula() {
    assert_eq!(round2(0, 1), 0);
    assert_eq!(round2(1, 1), 1);
    assert_eq!(round2(3, 3), 0);
    assert_eq!(round2(4, 3), 1);
}

fn no_segmentation() -> SegmentationParams {
    SegmentationParams {
        enabled: false,
        update_map: false,
        tree_probs: [255; 7],
        pred_prob: [255; 3],
        temporal_update: false,
        abs_or_delta_update: false,
        feature_enabled: [[false; 4]; MAX_SEGMENTS],
        feature_data: [[0; 4]; MAX_SEGMENTS],
    }
}

#[test]
fn loop_filter_lvl_lookup_without_deltas_is_flat_level() {
    let lf = LoopFilterParams {
        level: 20,
        sharpness: 0,
        delta_enabled: false,
        ref_deltas: [1, 0, -1, -1],
        mode_deltas: [0, 0],
    };
    let table = build_lvl_lookup(&lf, &no_segmentation());
    for seg in table.iter() {
        for r in seg.iter() {
            for m in r.iter() {
                assert_eq!(*m, 20);
            }
        }
    }
}

#[test]
fn loop_filter_lvl_lookup_applies_intra_ref_delta() {
    let lf = LoopFilterParams {
        level: 40,
        sharpness: 0,
        delta_enabled: true,
        ref_deltas: [1, 0, -1, -1],
        mode_deltas: [0, 0],
    };
    let table = build_lvl_lookup(&lf, &no_segmentation());
    assert_eq!(table[0][INTRA_FRAME as usize][0], 42);
}

#[test]
fn loop_filter_lvl_lookup_seg_lvl_alt_l_absolute_override() {
    let lf = LoopFilterParams {
        level: 20,
        sharpness: 0,
        delta_enabled: false,
        ref_deltas: [1, 0, -1, -1],
        mode_deltas: [0, 0],
    };
    let mut seg = no_segmentation();
    seg.enabled = true;
    seg.abs_or_delta_update = true;
    seg.feature_enabled[3][SEG_LVL_ALT_L] = true;
    seg.feature_data[3][SEG_LVL_ALT_L] = 50;
    let table = build_lvl_lookup(&lf, &seg);
    for m in table[3].iter().flatten() {
        assert_eq!(*m, 50);
    }
    for m in table[0].iter().flatten() {
        assert_eq!(*m, 20);
    }
}

#[test]
fn loop_filter_lvl_lookup_seg_lvl_alt_l_delta_is_clipped() {
    let lf = LoopFilterParams {
        level: 60,
        sharpness: 0,
        delta_enabled: false,
        ref_deltas: [1, 0, -1, -1],
        mode_deltas: [0, 0],
    };
    let mut seg = no_segmentation();
    seg.enabled = true;
    seg.abs_or_delta_update = false;
    seg.feature_enabled[2][SEG_LVL_ALT_L] = true;
    seg.feature_data[2][SEG_LVL_ALT_L] = 10;
    let table = build_lvl_lookup(&lf, &seg);
    for m in table[2].iter().flatten() {
        assert_eq!(*m, 63);
    }
}

#[test]
fn loop_filter_adaptive_filter_strength_zero_sharpness() {
    let (limit, blimit, thresh) = adaptive_filter_strength(20, 0, 8);
    assert_eq!(limit, 20);
    assert_eq!(blimit, 2 * (20 + 2) + 20);
    assert_eq!(thresh, 20 >> 4);
}

#[test]
fn loop_filter_narrow_filter_flat_input_is_noop_like() {
    let mut p = Plane::new(8, 1);
    for x in 0..8 {
        p.set(x, 0, 128);
    }
    narrow_filter(&mut p, 4, 0, 1, 0, false, 8);
    for x in 0..8 {
        assert_eq!(p.get(x, 0), 128);
    }
}


