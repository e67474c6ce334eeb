//! State that carries over from frame to frame.

use std::sync::Arc;
use vp9dec::compressed_header::{FrameContext, FrameContextStore};
use vp9dec::decoder::{frame_context_reset, Decoder, FrameContextReset};
use vp9dec::header::{compute_image_size, FrameType};

#[test]
fn frame_context_reset_keyframe_always_resets_all() {
    for reset_frame_context in 0..=3 {
        assert_eq!(
            frame_context_reset(FrameType::KeyFrame, false, reset_frame_context, 2),
            FrameContextReset::All
        );
    }
}

#[test]
fn frame_context_reset_error_resilient_always_resets_all() {
    for reset_frame_context in 0..=3 {
        assert_eq!(
            frame_context_reset(FrameType::NonKeyFrame, true, reset_frame_context, 2),
            FrameContextReset::All
        );
    }
}

#[test]
fn frame_context_reset_intra_only_reset_frame_context_3_resets_all() {
    assert_eq!(
        frame_context_reset(FrameType::NonKeyFrame, false, 3, 2),
        FrameContextReset::All
    );
}

#[test]
fn frame_context_reset_intra_only_reset_frame_context_2_resets_only_that_slot() {
    assert_eq!(
        frame_context_reset(FrameType::NonKeyFrame, false, 2, 0),
        FrameContextReset::Slot(0)
    );
    assert_eq!(
        frame_context_reset(FrameType::NonKeyFrame, false, 2, 3),
        FrameContextReset::Slot(3)
    );
}

#[test]
fn frame_context_reset_intra_only_reset_frame_context_0_or_1_resets_nothing() {
    assert_eq!(
        frame_context_reset(FrameType::NonKeyFrame, false, 0, 1),
        FrameContextReset::Nothing
    );
    assert_eq!(
        frame_context_reset(FrameType::NonKeyFrame, false, 1, 1),
        FrameContextReset::Nothing
    );
}

#[test]
fn prev_segment_ids_reset_lifecycle() {
    let dims = (16u32, 16u32);
    let image_size = compute_image_size(dims.0, dims.1);
    let seeded = || {
        let mut d = Decoder::new();
        d.prev_frame_dims = Some(dims);
        d.prev_segment_ids = Arc::new(vec![5u8; 4]);
        d
    };

    let mut d = seeded();
    d.clear_prev_segment_ids_if_needed(dims, &image_size, false);
    assert_eq!(*d.prev_segment_ids, vec![5u8; 4]);

    let mut d = seeded();
    d.clear_prev_segment_ids_if_needed(dims, &image_size, true);
    assert_eq!(*d.prev_segment_ids, vec![0u8; 4]);

    let mut d = seeded();
    let new_dims = (24u32, 16u32);
    let new_image_size = compute_image_size(new_dims.0, new_dims.1);
    d.clear_prev_segment_ids_if_needed(new_dims, &new_image_size, false);
    assert_eq!(*d.prev_segment_ids, vec![0u8; 6]);

    let mut d = Decoder::new();
    d.prev_segment_ids = Arc::new(vec![5u8; 4]);
    d.clear_prev_segment_ids_if_needed(dims, &image_size, false);
    assert_eq!(*d.prev_segment_ids, vec![0u8; 4]);
}

fn adapted_context() -> FrameContext {
    let mut ctx = FrameContext::default();
    ctx.mv_hp_prob = [1, 2];
    ctx
}

#[test]
fn frame_context_store_reset_application() {
    let seeded = || {
        let mut store = FrameContextStore::new();
        for i in 0..4 {
            store.save(i, adapted_context());
        }
        store
    };

    let store = seeded();
    for i in 0..4 {
        assert_eq!(store.load(i), adapted_context());
    }

    let mut store = seeded();
    if let FrameContextReset::Slot(idx) = frame_context_reset(FrameType::NonKeyFrame, false, 2, 2) {
        store.save(idx, FrameContext::default());
    } else {
        unreachable!();
    }
    for i in 0..4 {
        if i == 2 {
            assert_eq!(store.load(i), FrameContext::default());
        } else {
            assert_eq!(store.load(i), adapted_context());
        }
    }

    let mut store = seeded();
    assert_eq!(
        frame_context_reset(FrameType::KeyFrame, false, 0, 0),
        FrameContextReset::All
    );
    store.reset_all();
    for i in 0..4 {
        assert_eq!(store.load(i), FrameContext::default());
    }
}
