//! Compressed headers.

use vp9dec::bool_coder::BoolCoderError;
use vp9dec::compressed_header::{
    inv_remap_prob, parse_compressed_header, CompressedHeader, CompressedHeaderError, FrameContext,
};
use vp9dec::header::{
    FrameType, LoopFilterParams, NewFrameHeader, QuantizationParams, SegmentationParams, SWITCHABLE,
};
use vp9dec::prob_tables::{
    ALTREF_FRAME, COMPOUND_REFERENCE, EIGHTTAP, GOLDEN_FRAME, LAST_FRAME, REFERENCE_MODE_SELECT,
    SINGLE_REFERENCE, TX_MODE_SELECT,
};
use vp9dec::test_support::BoolEncoder;

/// Writes that `n` probabilities stay as they are.
fn keep(enc: &mut BoolEncoder, n: usize) {
    for _ in 0..n {
        enc.write_bool(false, 252);
    }
}

fn header(frame_is_intra: bool) -> NewFrameHeader {
    NewFrameHeader {
        profile: 0,
        frame_type: if frame_is_intra {
            FrameType::KeyFrame
        } else {
            FrameType::NonKeyFrame
        },
        show_frame: true,
        error_resilient_mode: false,
        frame_is_intra,
        intra_only: false,
        reset_frame_context: 0,
        color_config: None,
        width: 8,
        height: 8,
        render_width: 8,
        render_height: 8,
        refresh_frame_flags: 0xff,
        ref_frame_idx: [0; 3],
        ref_frame_sign_bias: [false; 4],
        allow_high_precision_mv: false,
        interpolation_filter: EIGHTTAP,
        refresh_frame_context: true,
        frame_parallel_decoding_mode: false,
        frame_context_idx: 0,
        loop_filter: LoopFilterParams {
            level: 0,
            sharpness: 0,
            delta_enabled: false,
            ref_deltas: [0; 4],
            mode_deltas: [0; 2],
        },
        quantization: QuantizationParams {
            base_q_idx: 10,
            delta_q_y_dc: 0,
            delta_q_uv_dc: 0,
            delta_q_uv_ac: 0,
            lossless: false,
        },
        segmentation: SegmentationParams {
            enabled: false,
            update_map: false,
            tree_probs: [255; 7],
            pred_prob: [255; 3],
            temporal_update: false,
            abs_or_delta_update: false,
            feature_enabled: [[false; 4]; 8],
            feature_data: [[0; 4]; 8],
        },
        tile_cols_log2: 0,
        tile_rows_log2: 0,
        header_size_in_bytes: 1,
    }
}

fn parse(enc: BoolEncoder, h: &NewFrameHeader) -> CompressedHeader {
    parse_compressed_header(&enc.finish(), h, FrameContext::default()).expect("a valid header")
}

#[test]
fn data_that_cannot_be_started_is_refused() {
    assert_eq!(
        parse_compressed_header(&[], &header(true), FrameContext::default()),
        Err(CompressedHeaderError::BoolCoder(BoolCoderError::EmptyBuffer))
    );
    assert_eq!(
        parse_compressed_header(&[0xff, 0], &header(true), FrameContext::default()),
        Err(CompressedHeaderError::BoolCoder(BoolCoderError::InvalidMarker))
    );
}

#[test]
fn a_lossless_frame_has_small_transforms_only() {
    let mut h = header(true);
    h.quantization.lossless = true;
    let mut enc = BoolEncoder::new();
    enc.write_literal(0, 1);
    keep(&mut enc, 3);
    let c = parse(enc, &h);
    assert_eq!(c.tx_mode, 0);
    assert_eq!(*c.probs, FrameContext::default());
    assert_eq!(c.reference_mode, SINGLE_REFERENCE);
    assert_eq!((c.comp_fixed_ref, c.comp_var_ref), (0, [0, 0]));
}

#[test]
fn transform_modes() {
    for mode in 0..3u8 {
        let mut enc = BoolEncoder::new();
        enc.write_literal(mode as u32, 2);
        enc.write_literal(0, mode as u32 + 1);
        keep(&mut enc, 3);
        assert_eq!(parse(enc, &header(true)).tx_mode, mode);
    }
    let mut enc = BoolEncoder::new();
    enc.write_literal(3, 2);
    enc.write_literal(0, 1);
    enc.write_literal(0, 4);
    keep(&mut enc, 3);
    assert_eq!(parse(enc, &header(true)).tx_mode, 3);
}

#[test]
fn selected_transform_sizes_update_their_probabilities() {
    let mut enc = BoolEncoder::new();
    enc.write_literal(3, 2);
    enc.write_literal(1, 1);
    // The first of the two 8x8 contexts: an update with code 0, which moves the
    // probability by 7.
    enc.write_bool(true, 252);
    enc.write_literal(0, 1);
    enc.write_literal(0, 4);
    keep(&mut enc, 1 + 4 + 6);
    enc.write_literal(0, 4);
    keep(&mut enc, 3);
    let c = parse(enc, &header(true));
    assert_eq!(c.tx_mode, TX_MODE_SELECT);
    let before = FrameContext::default();
    // 100 becomes 1 + (99 - 4): the difference 7 is odd.
    assert_eq!(before.tx_probs[1][0][0], 100);
    assert_eq!(c.probs.tx_probs[1][0][0], 96);
    assert_eq!(c.probs.tx_probs[1][1], before.tx_probs[1][1]);
    assert_eq!(c.probs.coef_probs, before.coef_probs);
}

#[test]
fn coefficient_probabilities_are_updated_in_order() {
    let mut enc = BoolEncoder::new();
    enc.write_literal(0, 2);
    enc.write_literal(1, 1);
    // The fourth row belongs to the second band, since the first has three.
    keep(&mut enc, 9);
    enc.write_bool(true, 252);
    enc.write_literal(1, 1);
    enc.write_literal(0, 1);
    enc.write_literal(3, 4);
    keep(&mut enc, 4 * 33 * 3 - 10);
    keep(&mut enc, 2);
    enc.write_bool(true, 252);
    enc.write_literal(0, 1);
    enc.write_literal(0, 4);
    let c = parse(enc, &header(true));
    let before = FrameContext::default();
    assert_eq!(before.coef_probs[0][0][0][1][0][0], 31);
    assert_ne!(c.probs.coef_probs[0][0][0][1][0][0], 31);
    let mut restored = c.probs.coef_probs;
    restored[0][0][0][1][0][0] = 31;
    assert_eq!(restored, before.coef_probs);
    assert_eq!(c.probs.skip_prob[..2], before.skip_prob[..2]);
    assert_ne!(c.probs.skip_prob[2], before.skip_prob[2]);
}

/// An inter header up to the reference mode, with nothing updated.
fn inter_start(switchable: bool) -> BoolEncoder {
    let mut enc = BoolEncoder::new();
    enc.write_literal(0, 2);
    enc.write_literal(0, 1);
    keep(&mut enc, 3 + 21);
    if switchable {
        keep(&mut enc, 8);
    }
    keep(&mut enc, 4);
    enc
}

#[test]
fn without_sign_bias_there_is_one_reference() {
    let mut enc = inter_start(false);
    keep(&mut enc, 10 + 36 + 48);
    // Motion vector probabilities are replaced by 7 bits and a set bit.
    keep(&mut enc, 2);
    enc.write_bool(true, 252);
    enc.write_literal(0x55, 7);
    keep(&mut enc, 2 * (1 + 10 + 1 + 10) + 2 * (6 + 3));
    let c = parse(enc, &header(false));
    assert_eq!(c.reference_mode, SINGLE_REFERENCE);
    assert_eq!(c.probs.mv_joint_probs[2], 0xab);
    let before = FrameContext::default();
    assert_eq!(c.probs.mv_joint_probs[..2], before.mv_joint_probs[..2]);
    assert_eq!(c.probs.mv_hp_prob, before.mv_hp_prob);
}

#[test]
fn compound_references() {
    let cases: [([bool; 4], u8, [u8; 2]); 3] = [
        ([false, false, false, true], ALTREF_FRAME, [LAST_FRAME, GOLDEN_FRAME]),
        ([false, false, true, false], GOLDEN_FRAME, [LAST_FRAME, ALTREF_FRAME]),
        ([false, true, false, false], LAST_FRAME, [GOLDEN_FRAME, ALTREF_FRAME]),
    ];
    for (bias, fixed, var) in cases {
        let mut h = header(false);
        h.ref_frame_sign_bias = bias;
        let mut enc = inter_start(false);
        enc.write_literal(1, 1);
        enc.write_literal(0, 1);
        keep(&mut enc, 5 + 36 + 48 + 3 + 44 + 18);
        let c = parse(enc, &h);
        assert_eq!(c.reference_mode, COMPOUND_REFERENCE);
        assert_eq!((c.comp_fixed_ref, c.comp_var_ref), (fixed, var));
    }
}

#[test]
fn a_selected_reference_mode_and_high_precision() {
    let mut h = header(false);
    h.ref_frame_sign_bias = [false, false, false, true];
    h.interpolation_filter = SWITCHABLE;
    h.allow_high_precision_mv = true;
    let mut enc = inter_start(true);
    enc.write_literal(1, 1);
    enc.write_literal(1, 1);
    keep(&mut enc, 5 + 10 + 5 + 36 + 48 + 3 + 44 + 18);
    keep(&mut enc, 3);
    enc.write_bool(true, 252);
    enc.write_literal(0, 7);
    let c = parse(enc, &h);
    assert_eq!(c.reference_mode, REFERENCE_MODE_SELECT);
    assert_eq!(c.probs.mv_hp_prob[1], 1);
    let before = FrameContext::default();
    assert_eq!(c.probs.mv_hp_prob[0], before.mv_hp_prob[0]);
    assert_eq!(c.probs.mv_class0_hp_prob, before.mv_class0_hp_prob);
}

#[test]
fn the_codes_reach_every_other_probability_once() {
    let mut reached = [0u32; 256];
    for code in 0..254u32 {
        let mut enc = BoolEncoder::new();
        enc.write_literal(3, 2);
        enc.write_literal(1, 1);
        enc.write_bool(true, 252);
        if code < 16 {
            enc.write_literal(0, 1);
            enc.write_literal(code, 4);
        } else if code < 32 {
            enc.write_literal(0b10, 2);
            enc.write_literal(code - 16, 4);
        } else if code < 64 {
            enc.write_literal(0b110, 3);
            enc.write_literal(code - 32, 5);
        } else {
            enc.write_literal(0b111, 3);
            if code < 129 {
                enc.write_literal(code - 64, 7);
            } else {
                enc.write_literal((code + 1) >> 1, 7);
                enc.write_literal((code + 1) & 1, 1);
            }
        }
        keep(&mut enc, 1 + 4 + 6);
        enc.write_literal(0, 4);
        keep(&mut enc, 3);
        reached[parse(enc, &header(true)).probs.tx_probs[1][0][0] as usize] += 1;
    }
    assert_eq!(FrameContext::default().tx_probs[1][0][0], 100);
    for (prob, &times) in reached.iter().enumerate() {
        assert_eq!(times, u32::from(prob != 0 && prob != 100), "{prob}");
    }
}

#[test]
fn a_copied_header_is_the_same() {
    let mut enc = BoolEncoder::new();
    enc.write_literal(2, 2);
    enc.write_literal(0, 3);
    keep(&mut enc, 2);
    enc.write_bool(true, 252);
    enc.write_literal(0, 1);
    enc.write_literal(0, 4);
    let c = parse(enc, &header(true));
    let copy = c.clone();
    assert_eq!(copy, c);
    assert_eq!(copy.tx_mode, 2);
    assert_ne!(copy.probs.skip_prob, FrameContext::default().skip_prob);
}

#[test]
fn codes_move_a_probability() {
    // The difference is 7 for code 0, 1 for code 20 and 253 for code 253.
    assert_eq!(inv_remap_prob(0, 100), 96);
    assert_eq!(inv_remap_prob(20, 100), 99);
    assert_eq!(inv_remap_prob(21, 100), 101);
    assert_eq!(inv_remap_prob(20, 200), 201);
    assert_eq!(inv_remap_prob(253, 1), 254);
    for prob in 1..=255u8 {
        let mut seen = [false; 256];
        for code in 0..254 {
            let p = inv_remap_prob(code, prob);
            assert!(p != 0 && p != prob && !seen[p as usize]);
            seen[p as usize] = true;
        }
    }
}
