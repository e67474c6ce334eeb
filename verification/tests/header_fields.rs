//! Fields of uncompressed headers.

use vp9dec::bit_reader::BitReader;
use vp9dec::header::{
    parse_segmentation_params, parse_uncompressed_header, FrameHeader, FrameType, HeaderError,
    PersistentState, SegFeaturePersist, CS_UNKNOWN, SEG_LVL_ALT_L, SEG_LVL_ALT_Q, SEG_LVL_MAX,
    SEG_LVL_REF_FRAME, SEG_LVL_SKIP,
};
use vp9dec::common::MAX_SEGMENTS;
use vp9dec::prob_tables::EIGHTTAP_SMOOTH;
use vp9dec::test_support::BitWriter;

fn build_minimal_keyframe_header() -> Vec<u8> {
    let mut w = BitWriter::new();
    w.push_bits(2, 2);
    w.push_bits(0, 1);
    w.push_bits(0, 1);
    w.push_flag(false);
    w.push_bits(0, 1);
    w.push_flag(true);
    w.push_flag(false);
    w.push_bits(0x49, 8);
    w.push_bits(0x83, 8);
    w.push_bits(0x42, 8);
    w.push_bits(CS_UNKNOWN as u32, 3);
    w.push_flag(false);
    w.push_bits(7, 16);
    w.push_bits(7, 16);
    w.push_flag(false);
    w.push_flag(true);
    w.push_flag(false);
    w.push_bits(0, 2);
    w.push_bits(0, 6);
    w.push_bits(0, 3);
    w.push_flag(false);
    w.push_bits(0, 8);
    w.push_flag(false);
    w.push_flag(false);
    w.push_flag(false);
    w.push_flag(false);
    w.push_bits(0, 1);
    w.push_bits(1, 16);

    w.finish()
}

#[test]
fn tests_parses_minimal_keyframe_header() {
    let data = build_minimal_keyframe_header();
    let (header, _consumed) =
        parse_uncompressed_header(&data, &PersistentState::default()).expect("should parse");
    match header {
        FrameHeader::New(f) => {
            assert_eq!(f.profile, 0);
            assert_eq!(f.frame_type, FrameType::KeyFrame);
            assert!(f.show_frame);
            assert!(!f.error_resilient_mode);
            let cc = f
                .color_config
                .expect("key frame always parses color_config");
            assert_eq!(cc.bit_depth, 8);
            assert_eq!(cc.color_space, CS_UNKNOWN);
            assert_eq!(cc.subsampling_x, 1);
            assert_eq!(cc.subsampling_y, 1);
            assert_eq!(f.width, 8);
            assert_eq!(f.height, 8);
            assert_eq!(f.render_width, 8);
            assert_eq!(f.render_height, 8);
            assert_eq!(f.refresh_frame_flags, 0xFF);
            assert!(f.quantization.lossless);
            assert!(!f.segmentation.enabled);
            assert_eq!(f.tile_cols_log2, 0);
            assert_eq!(f.tile_rows_log2, 0);
            assert_eq!(f.header_size_in_bytes, 1);
            assert_eq!(f.loop_filter.ref_deltas, [1, 0, -1, -1]);
        }
        FrameHeader::ShowExistingFrame { .. } => panic!("unexpected show_existing_frame"),
    }
}

#[test]
fn tests_rejects_bad_frame_marker() {
    let mut w = BitWriter::new();
    w.push_bits(1, 2);
    w.push_bits(0, 30);
    let data = w.finish();
    assert_eq!(
        parse_uncompressed_header(&data, &PersistentState::default()),
        Err(HeaderError::InvalidFrameMarker)
    );
}

#[test]
fn tests_rejects_bad_sync_code() {
    let mut w = BitWriter::new();
    w.push_bits(2, 2);
    w.push_bits(0, 1);
    w.push_bits(0, 1);
    w.push_flag(false);
    w.push_bits(0, 1);
    w.push_flag(true);
    w.push_flag(false);
    w.push_bits(0x00, 8);
    w.push_bits(0x00, 8);
    w.push_bits(0x00, 8);
    let data = w.finish();
    assert_eq!(
        parse_uncompressed_header(&data, &PersistentState::default()),
        Err(HeaderError::InvalidSyncCode)
    );
}

fn build_minimal_inter_frame_header() -> Vec<u8> {
    let mut w = BitWriter::new();
    w.push_bits(2, 2);
    w.push_bits(0, 1);
    w.push_bits(0, 1);
    w.push_flag(false);
    w.push_bits(1, 1);
    w.push_flag(true);
    w.push_flag(false);
    w.push_bits(0, 2);
    w.push_bits(0x01, 8);
    for _ in 0..3 {
        w.push_bits(0, 3);
        w.push_flag(false);
    }
    w.push_flag(true);
    w.push_flag(false);
    w.push_flag(false);
    w.push_flag(false);
    w.push_bits(0, 2);
    w.push_flag(true);
    w.push_flag(false);
    w.push_bits(0, 2);
    w.push_bits(0, 6);
    w.push_bits(0, 3);
    w.push_flag(false);
    w.push_bits(0, 8);
    w.push_flag(false);
    w.push_flag(false);
    w.push_flag(false);
    w.push_flag(false);
    w.push_bits(0, 1);
    w.push_bits(3, 16);

    w.finish()
}

#[test]
fn tests_parses_inter_frame_using_ref_frame_size() {
    let data = build_minimal_inter_frame_header();
    let mut prev = PersistentState::default();
    prev.ref_frame_sizes[0] = (8, 8);
    let (header, _consumed) = parse_uncompressed_header(&data, &prev).expect("should parse");
    match header {
        FrameHeader::New(f) => {
            assert_eq!(f.frame_type, FrameType::NonKeyFrame);
            assert!(!f.frame_is_intra);
            assert!(!f.intra_only);
            assert_eq!(f.width, 8);
            assert_eq!(f.height, 8);
            assert_eq!(f.refresh_frame_flags, 0x01);
            assert_eq!(f.ref_frame_idx, [0, 0, 0]);
            assert!(!f.allow_high_precision_mv);
            assert_eq!(f.interpolation_filter, EIGHTTAP_SMOOTH);
            assert_eq!(f.header_size_in_bytes, 3);
            assert_eq!(f.frame_context_idx, 0);
        }
        FrameHeader::ShowExistingFrame { .. } => panic!("unexpected"),
    }
}

#[test]
fn effective_frame_context_idx_forces_zero_only_for_intra_or_error_resilient() {
    let mut prev = PersistentState::default();
    prev.ref_frame_sizes[0] = (8, 8);
    let (header, _) =
        parse_uncompressed_header(&build_minimal_inter_frame_header(), &prev).expect("parse");
    let FrameHeader::New(base) = header else {
        panic!("expected a New frame header");
    };
    for raw in 0u8..4 {
        for frame_is_intra in [false, true] {
            for error_resilient_mode in [false, true] {
                let mut h = base.clone();
                h.frame_context_idx = raw;
                h.frame_is_intra = frame_is_intra;
                h.error_resilient_mode = error_resilient_mode;
                let expected = if frame_is_intra || error_resilient_mode {
                    0
                } else {
                    raw
                };
                assert_eq!(
                    h.effective_frame_context_idx(),
                    expected,
                    "raw={raw} intra={frame_is_intra} er={error_resilient_mode}"
                );
                assert_eq!(h.frame_context_idx, raw, "raw field must be preserved");
            }
        }
    }
}

#[test]
fn tests_parses_show_existing_frame() {
    let mut w = BitWriter::new();
    w.push_bits(2, 2);
    w.push_bits(0, 1);
    w.push_bits(0, 1);
    w.push_flag(true);
    w.push_bits(5, 3);
    let data = w.finish();

    let (header, consumed) =
        parse_uncompressed_header(&data, &PersistentState::default()).expect("should parse");
    assert_eq!(
        header,
        FrameHeader::ShowExistingFrame {
            frame_to_show_map_idx: 5
        }
    );
    assert_eq!(consumed, 1);
}

#[test]
fn tests_parses_loop_filter_deltas_and_signed_values() {
    let mut w = BitWriter::new();
    w.push_bits(2, 2);
    w.push_bits(0, 1);
    w.push_bits(0, 1);
    w.push_flag(false);
    w.push_bits(0, 1);
    w.push_flag(true);
    w.push_flag(true);
    w.push_bits(0x49, 8);
    w.push_bits(0x83, 8);
    w.push_bits(0x42, 8);
    w.push_bits(CS_UNKNOWN as u32, 3);
    w.push_flag(false);
    w.push_bits(15, 16);
    w.push_bits(15, 16);
    w.push_flag(false);
    w.push_bits(0, 2);
    w.push_bits(10, 6);
    w.push_bits(3, 3);
    w.push_flag(true);
    w.push_flag(true);
    w.push_flag(true);
    w.push_signed(-3, 6);
    w.push_flag(false);
    w.push_flag(true);
    w.push_signed(2, 6);
    w.push_flag(false);
    w.push_flag(true);
    w.push_signed(-1, 6);
    w.push_flag(false);
    w.push_bits(20, 8);
    w.push_flag(false);
    w.push_flag(false);
    w.push_flag(false);
    w.push_flag(false);
    w.push_bits(0, 1);
    w.push_bits(42, 16);

    let data = w.finish();
    let (header, _) =
        parse_uncompressed_header(&data, &PersistentState::default()).expect("should parse");
    match header {
        FrameHeader::New(f) => {
            assert!(f.error_resilient_mode);
            assert!(!f.refresh_frame_context);
            assert!(f.frame_parallel_decoding_mode);
            assert_eq!(f.loop_filter.level, 10);
            assert_eq!(f.loop_filter.sharpness, 3);
            assert_eq!(f.loop_filter.ref_deltas, [-3, 0, 2, -1]);
            assert_eq!(f.loop_filter.mode_deltas, [-1, 0]);
            assert!(!f.quantization.lossless);
            assert_eq!(f.header_size_in_bytes, 42);
        }
        FrameHeader::ShowExistingFrame { .. } => panic!("unexpected"),
    }
}

#[test]
fn tests_segmentation_params_round_trip_reads_full_payload() {
    let mut w = BitWriter::new();
    w.push_flag(true);
    w.push_flag(true);
    for _ in 0..7 {
        w.push_flag(true);
        w.push_bits(200, 8);
    }
    w.push_flag(true);
    for _ in 0..3 {
        w.push_flag(true);
        w.push_bits(180, 8);
    }
    w.push_flag(true);
    w.push_flag(false);
    for seg in 0..MAX_SEGMENTS {
        for level in 0..SEG_LVL_MAX {
            if seg == 2 && level == SEG_LVL_ALT_Q {
                w.push_flag(true);
                w.push_bits(50, 8);
                w.push_flag(true);
            } else if seg == 5 && level == SEG_LVL_ALT_L {
                w.push_flag(true);
                w.push_bits(30, 6);
                w.push_flag(false);
            } else if seg == 3 && level == SEG_LVL_REF_FRAME {
                w.push_flag(true);
                w.push_bits(2, 2);
            } else if seg == 7 && level == SEG_LVL_SKIP {
                w.push_flag(true);
            } else {
                w.push_flag(false);
            }
        }
    }
    let data = w.finish();
    let mut r = BitReader::new(&data);
    let seg = parse_segmentation_params(&mut r, false, SegFeaturePersist::default());

    assert!(seg.enabled);
    assert!(seg.update_map);
    assert_eq!(seg.tree_probs, [200; 7]);
    assert!(seg.temporal_update);
    assert_eq!(seg.pred_prob, [180; 3]);
    assert!(!seg.abs_or_delta_update);
    assert!(seg.feature_enabled[2][SEG_LVL_ALT_Q]);
    assert_eq!(seg.feature_data[2][SEG_LVL_ALT_Q], -50);
    assert!(seg.feature_enabled[5][SEG_LVL_ALT_L]);
    assert_eq!(seg.feature_data[5][SEG_LVL_ALT_L], 30);
    assert!(seg.feature_enabled[3][SEG_LVL_REF_FRAME]);
    assert_eq!(seg.feature_data[3][SEG_LVL_REF_FRAME], 2);
    assert!(seg.feature_enabled[7][SEG_LVL_SKIP]);
    assert_eq!(seg.feature_data[7][SEG_LVL_SKIP], 0);
    assert!(!seg.feature_enabled[0][SEG_LVL_ALT_Q]);
    assert_eq!(seg.feature_data[0][SEG_LVL_ALT_Q], 0);
}

#[test]
fn tests_segmentation_params_persists_feature_data_when_not_updated() {
    let mut prev_enabled = [[false; SEG_LVL_MAX]; MAX_SEGMENTS];
    let mut prev_data = [[0i32; SEG_LVL_MAX]; MAX_SEGMENTS];
    prev_enabled[4][SEG_LVL_ALT_Q] = true;
    prev_data[4][SEG_LVL_ALT_Q] = 77;
    let prev = SegFeaturePersist {
        enabled: prev_enabled,
        data: prev_data,
        abs_or_delta: true,
    };

    let mut w = BitWriter::new();
    w.push_flag(true);
    w.push_flag(false);
    w.push_flag(false);
    let data = w.finish();

    let mut r = BitReader::new(&data);
    let seg = parse_segmentation_params(&mut r, false, prev);
    assert!(seg.enabled);
    assert!(!seg.update_map);
    assert!(seg.abs_or_delta_update);
    assert!(seg.feature_enabled[4][SEG_LVL_ALT_Q]);
    assert_eq!(seg.feature_data[4][SEG_LVL_ALT_Q], 77);

    let mut r2 = BitReader::new(&data);
    let seg_reset = parse_segmentation_params(&mut r2, true, prev);
    assert!(!seg_reset.abs_or_delta_update);
    assert!(!seg_reset.feature_enabled[4][SEG_LVL_ALT_Q]);
    assert_eq!(seg_reset.feature_data[4][SEG_LVL_ALT_Q], 0);
}
