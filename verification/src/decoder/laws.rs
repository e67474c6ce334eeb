//! What a frame leaves behind for the frames after it, in terms of its headers.

use vstd::prelude::*;
use crate::bool_coder::BoolCoderError;
use crate::compressed_header::{
    compressed_header_at, default_probs, CompressedHeader,
    CompressedHeaderError, CompressedHeaderProbs, FrameContext,
};
use crate::counts::laws::{lemma_uncounted_coefs_unchanged, lemma_uncounted_tables_unchanged};
use crate::counts::tables::{lemma_block_flags, lemma_coefficients, nudged};
use crate::counts::{counts_zero, Counts};
use crate::dpb::RefFrameData;
use crate::framebuffer::{lemma_crop_keeps_samples, lemma_row_major, row_major, Plane};
use crate::header::{
    header_at, shows_existing, ColorConfig, FrameType, HeaderError, LoopFilterParams,
    NewFrameHeader,
};
use crate::loop_filter::plane_filtered;
use crate::tile::decoder::{filter_frame, BlockLayer, TileDecoder};
use super::{
    contexts_updated, frame_begun, frame_config, frame_finished, frame_of, header_refusal,
    holds_samples, info_of, last_shown, new_frame, one_frame, probs_refreshed, reference_of, session,
    start_refusal, tiles_begun, tiles_done, tiles_filtered, top_left, DecodeError, DecodedFrame,
    Decoder, Frame, FrameDecodeInfo, PlaneData, Session,
};

verus! {

/// The slot of the four saved contexts that a frame loads and saves: the first for
/// a frame that starts afresh, otherwise the one that its header names.
pub open spec fn slot_of(h: NewFrameHeader) -> int {
    if h.frame_is_intra || h.error_resilient_mode {
        0
    } else {
        h.frame_context_idx as int
    }
}

/// The context in a slot once a frame has set back those that it is to: all of
/// them for a key frame, an error resilient frame or on request, one of them for an
/// intra frame that asks for that.
pub open spec fn slot_begun(before: Decoder, h: NewFrameHeader, k: int) -> FrameContext {
    let afresh = h.frame_is_intra || h.error_resilient_mode;
    let all = h.frame_type == FrameType::KeyFrame || h.error_resilient_mode || h.reset_frame_context
        == 3;
    if afresh && (all || (h.reset_frame_context == 2 && h.frame_context_idx == k)) {
        default_probs()
    } else {
        before.frame_contexts.contexts[k]
    }
}

/// The compressed header of a frame whose first header takes `consumed` bytes.
pub open spec fn second_header(d: Seq<u8>, consumed: int, h: NewFrameHeader) -> Seq<u8> {
    d.subrange(consumed, consumed + h.header_size_in_bytes)
}

/// A frame has been decoded with the second header `c`, and `t` is what became of
/// its tiles.
pub open spec fn decoded_with<L: BlockLayer>(
    before: Session<L>,
    d: Seq<u8>,
    consumed: int,
    h: NewFrameHeader,
    after: Session<L>,
    out: DecodedFrame,
    c: CompressedHeader,
    t: TileDecoder,
) -> bool {
    &&& new_frame(before, d, consumed, h, after, Ok(out))
    &&& compressed_header_at(
        second_header(d, consumed, h),
        h,
        slot_begun(before.decoder, h, slot_of(h)),
        c,
    )
    &&& contexts_carried(before.decoder, h, c, t.contexts.counts, after.decoder)
    &&& pictures_carried(before.decoder, h, after.decoder, out)
    &&& settings_carried(before.decoder, h, t, after.decoder)
}

/// Contexts: without adaptation, a frame that refreshes its context saves the
/// tables of its second header as they are. No other context changes but by being
/// set back.
pub open spec fn contexts_carried(
    before: Decoder,
    h: NewFrameHeader,
    c: CompressedHeader,
    counts: Counts,
    after: Decoder,
) -> bool {
    let fixed = h.error_resilient_mode || h.frame_parallel_decoding_mode;
    &&& h.refresh_frame_context && fixed ==> after.frame_contexts.contexts[slot_of(h)] == *c.probs
    &&& h.refresh_frame_context && !fixed ==> probs_refreshed(
        h,
        slot_begun(before, h, slot_of(h)),
        c,
        counts,
        before.last_frame_type,
        after.frame_contexts.contexts[slot_of(h)],
    )
    &&& forall|k: int|
        0 <= k < 4 && (k != slot_of(h) || !h.refresh_frame_context)
            ==> #[trigger] after.frame_contexts.contexts[k] == slot_begun(before, h, k)
}

/// Pictures: the frame goes to the reference slots whose bits are set, and to the
/// output where it is shown. The other slots stay.
pub open spec fn pictures_carried(
    before: Decoder,
    h: NewFrameHeader,
    after: Decoder,
    out: DecodedFrame,
) -> bool {
    &&& forall|k: int|
        #![trigger after.dpb.slots[k]]
        0 <= k < 8 ==> if (h.refresh_frame_flags >> (k as u8)) & 1u8 == 1u8 {
            &&& after.dpb.slots[k] matches Some(r) && r.width == h.width && r.height == h.height
                && r.bit_depth == frame_config(before, h).bit_depth
            &&& after.persist.ref_frame_sizes[k] == (h.width, h.height)
        } else {
            &&& after.dpb.slots[k] == before.dpb.slots[k]
            &&& after.persist.ref_frame_sizes[k] == before.persist.ref_frame_sizes[k]
        }
    &&& out.info is Some
    &&& out.info->0.frame_is_intra == h.frame_is_intra
    &&& out.info->0.intra_only == h.intra_only
    &&& h.show_frame ==> (out.frame matches Some(f) && f.width == h.width && f.height == h.height)
    &&& !h.show_frame ==> out.frame is None
}

/// Settings: filter deltas, segment features, the size and kind of the frame and
/// its mode info are kept; segment ids only where the frame updates them, and they
/// are forgotten by a frame that starts afresh or has another size. An intra frame
/// leaves its sample format.
pub open spec fn settings_carried(
    before: Decoder,
    h: NewFrameHeader,
    t: TileDecoder,
    after: Decoder,
) -> bool {
    let cols = (h.width as int + 7) / 8;
    let rows = (h.height as int + 7) / 8;
    &&& after.persist.loop_filter_deltas.ref_deltas == h.loop_filter.ref_deltas
    &&& after.persist.loop_filter_deltas.mode_deltas == h.loop_filter.mode_deltas
    &&& after.persist.segmentation.enabled == h.segmentation.feature_enabled
    &&& after.persist.segmentation.data == h.segmentation.feature_data
    &&& after.persist.segmentation.abs_or_delta == h.segmentation.abs_or_delta_update
    &&& after.prev_frame_dims == Some((h.width, h.height))
    &&& after.prev_show_frame == Some(h.show_frame)
    &&& after.last_frame_type == Some(h.frame_type)
    &&& after.prev_mi_grid is Some && *after.prev_mi_grid->0 == t.frame.mi_grid
    &&& h.frame_is_intra && h.color_config is Some ==> after.last_color_config == h.color_config
    &&& !h.frame_is_intra ==> after.last_color_config == before.last_color_config
    &&& if h.segmentation.enabled && h.segmentation.update_map {
        &&& after.prev_segment_ids@.len() == cols * rows
        &&& forall|r: int, c: int|
            0 <= r < rows && 0 <= c < cols ==> #[trigger] after.prev_segment_ids@[r * cols + c]
                == t.frame.mi_grid.at(r, c).segment_id
    } else if h.frame_is_intra || h.error_resilient_mode || before.prev_frame_dims != Some(
        (h.width, h.height),
    ) {
        &&& after.prev_segment_ids@.len() == cols * rows
        &&& forall|k: int|
            0 <= k < after.prev_segment_ids@.len() ==> #[trigger] after.prev_segment_ids@[k] == 0
    } else {
        after.prev_segment_ids == before.prev_segment_ids
    }
}

/// A frame that is decoded leaves its contexts, pictures and settings behind as its
/// headers say.
#[verifier::spinoff_prover]
#[verifier::rlimit(40)]
pub proof fn lemma_frame_leaves_behind<L: BlockLayer>(
    before: Session<L>,
    d: Seq<u8>,
    consumed: int,
    h: NewFrameHeader,
    after: Session<L>,
    out: DecodedFrame,
) -> (r: (CompressedHeader, TileDecoder))
    requires
        new_frame(before, d, consumed, h, after, Ok(out)),
        h.frame_context_idx < 4,
    ensures
        decoded_with(before, d, consumed, h, after, out, r.0, r.1),
{
    let (begun, c, t0, t1) = choose|begun: Decoder, c: CompressedHeader, t0: TileDecoder, t1: TileDecoder|
        {
            &&& frame_begun(before.decoder, h, begun)
            &&& compressed_header_at(
                super::compressed_of(d, consumed, h),
                h,
                begun.frame_contexts.contexts[super::context_index(h)],
                c,
            )
            &&& #[trigger] tiles_done(
                session(begun, before.layer),
                d.skip(consumed + h.header_size_in_bytes),
                h,
                frame_config(before.decoder, h),
                c,
                t0,
                t1,
                after,
                Ok(out),
            )
        };
    let cc = frame_config(before.decoder, h);
    let t = choose|t: TileDecoder|
        #![trigger tiles_filtered(t1, h.loop_filter, t)]
        tiles_filtered(t1, h.loop_filter, t) && frame_finished(
            begun,
            h,
            cc,
            begun.frame_contexts.contexts[super::context_index(h)],
            c,
            t,
            after.decoder,
            out,
        );
    assert(super::context_index(h) == slot_of(h));
    assert forall|k: int| 0 <= k < 4 implies #[trigger] begun.frame_contexts.contexts[k]
        == slot_begun(before.decoder, h, k) by {
        lemma_slots_begun(before.decoder, h, begun, k);
    }
    lemma_contexts_carried(before.decoder, h, begun, c, t.contexts.counts, after.decoder);
    assert(pictures_carried(before.decoder, h, after.decoder, out)) by {
        assert forall|k: int|
            #![trigger after.decoder.dpb.slots[k]]
            0 <= k < 8 implies if (h.refresh_frame_flags >> (k as u8)) & 1u8 == 1u8 {
            &&& after.decoder.dpb.slots[k] matches Some(r) && r.width == h.width && r.height
                == h.height && r.bit_depth == frame_config(before.decoder, h).bit_depth
            &&& after.decoder.persist.ref_frame_sizes[k] == (h.width, h.height)
        } else {
            &&& after.decoder.dpb.slots[k] == before.decoder.dpb.slots[k]
            &&& after.decoder.persist.ref_frame_sizes[k]
                == before.decoder.persist.ref_frame_sizes[k]
        } by {
            assert(after.decoder.persist.ref_frame_sizes[k] == if crate::dpb::flag_set(
                h.refresh_frame_flags,
                k,
            ) {
                (h.width, h.height)
            } else {
                before.decoder.persist.ref_frame_sizes[k]
            });
        }
    }
    assert(settings_carried(before.decoder, h, t, after.decoder)) by {
        if h.segmentation.enabled && h.segmentation.update_map {
            let cols = (h.width as int + 7) / 8;
            let rows = (h.height as int + 7) / 8;
            assert forall|r: int, q: int| 0 <= r < rows && 0 <= q < cols implies #[trigger] after.decoder.prev_segment_ids@[r
                * cols + q] == t.frame.mi_grid.at(r, q).segment_id by {
                assert(after.decoder.prev_segment_ids@[crate::framebuffer::row_major(cols, q, r)]
                    == t.frame.mi_grid.at(r, q).segment_id);
            }
        }
    }
    (c, t)
}

proof fn lemma_slots_begun(before: Decoder, h: NewFrameHeader, begun: Decoder, k: int)
    requires
        frame_begun(before, h, begun),
        h.frame_context_idx < 4,
        0 <= k < 4,
    ensures
        begun.frame_contexts.contexts[k] == slot_begun(before, h, k),
{
    let after = begun.frame_contexts.contexts@;
    if h.frame_is_intra || h.error_resilient_mode {
        if h.frame_type == FrameType::KeyFrame || h.error_resilient_mode || h.reset_frame_context
            == 3 {
            assert(begun.frame_contexts.contexts[k] == default_probs());
        } else if h.reset_frame_context == 2 {
            assert(after == before.frame_contexts.contexts@.update(
                h.frame_context_idx as int,
                default_probs(),
            ));
            assert(after[k] == begun.frame_contexts.contexts[k]);
        }
    }
}

proof fn lemma_contexts_carried(
    before: Decoder,
    h: NewFrameHeader,
    begun: Decoder,
    c: CompressedHeader,
    counts: Counts,
    after: Decoder,
)
    requires
        frame_begun(before, h, begun),
        h.frame_context_idx < 4,
        contexts_updated(
            begun,
            h,
            begun.frame_contexts.contexts[slot_of(h)],
            c,
            counts,
            after.frame_contexts,
        ),
    ensures
        contexts_carried(before, h, c, counts, after),
{
    assert forall|k: int| 0 <= k < 4 implies #[trigger] begun.frame_contexts.contexts[k]
        == slot_begun(before, h, k) by {
        lemma_slots_begun(before, h, begun, k);
    }
    assert(begun.frame_contexts.contexts[slot_of(h)] == slot_begun(before, h, slot_of(h)));
    assert forall|k: int|
        0 <= k < 4 && (k != slot_of(h) || !h.refresh_frame_context)
            implies #[trigger] after.frame_contexts.contexts[k] == slot_begun(before, h, k) by {
        assert(begun.frame_contexts.contexts[k] == slot_begun(before, h, k));
    }
}

/// A frame that refreshes its context without adaptation hands its tables on: the
/// next frame that does not start afresh and names the same context starts from
/// exactly the tables that the second header of the first gave. So second headers
/// that give different tables leave different contexts.
pub proof fn lemma_tables_are_handed_on<L: BlockLayer>(
    before: Session<L>,
    d: Seq<u8>,
    consumed: int,
    h: NewFrameHeader,
    between: Session<L>,
    out: DecodedFrame,
    d2: Seq<u8>,
    consumed2: int,
    h2: NewFrameHeader,
    after: Session<L>,
    out2: DecodedFrame,
) -> (r: (CompressedHeader, CompressedHeader))
    requires
        new_frame(before, d, consumed, h, between, Ok(out)),
        new_frame(between, d2, consumed2, h2, after, Ok(out2)),
        h.frame_context_idx < 4,
        h2.frame_context_idx < 4,
        h.refresh_frame_context,
        h.error_resilient_mode || h.frame_parallel_decoding_mode,
        !h2.frame_is_intra,
        !h2.error_resilient_mode,
        h2.frame_context_idx == slot_of(h),
    ensures
        compressed_header_at(
            second_header(d, consumed, h),
            h,
            slot_begun(before.decoder, h, slot_of(h)),
            r.0,
        ),
        between.decoder.frame_contexts.contexts[slot_of(h)] == *r.0.probs,
        compressed_header_at(second_header(d2, consumed2, h2), h2, *r.0.probs, r.1),
{
    let (c, t) = lemma_frame_leaves_behind(before, d, consumed, h, between, out);
    let (c2, t2) = lemma_frame_leaves_behind(between, d2, consumed2, h2, after, out2);
    (c, c2)
}

/// The tables to save with adaptation. An inter frame's are those from before its
/// second header, moved towards the counts; coefficients move faster right after a
/// key frame. An intra frame moves the coefficients alone, keeps the transform size
/// and skip tables of its second header and all others from before it. Where
/// nothing was counted nothing moves.
pub proof fn lemma_adapted_tables_to_save(
    h: NewFrameHeader,
    starting: CompressedHeaderProbs,
    c: CompressedHeader,
    counts: Counts,
    last: Option<FrameType>,
    out: CompressedHeaderProbs,
    t: int,
    i: int,
    j: int,
    k: int,
    l: int,
)
    requires
        probs_refreshed(h, starting, c, counts, last, out),
        !h.error_resilient_mode,
        !h.frame_parallel_decoding_mode,
        0 <= t < 4,
        0 <= i < 2,
        0 <= j < 2,
        0 <= k < 6,
        0 <= l < 6,
        k >= 1 || l <= 2,
    ensures
        ({
            let old = starting.coef_probs[t][i][j][k][l];
            let new = out.coef_probs[t][i][j][k][l];
            let more = counts.more_coefs[t][i][j][k][l];
            let token = counts.token[t][i][j][k][l];
            let rate = if !h.frame_is_intra && last == Some(FrameType::KeyFrame) {
                128int
            } else {
                112
            };
            &&& new[0] == nudged(old[0], more[0] as int, more[1] as int, 24, rate)
            &&& new[1] == nudged(old[1], token[0] as int, token[1] + token[2], 24, rate)
            &&& new[2] == nudged(old[2], token[1] as int, token[2] as int, 24, rate)
        }),
        !h.frame_is_intra ==> forall|s: int|
            0 <= s < 3 ==> #[trigger] out.skip_prob[s] == nudged(
                starting.skip_prob[s],
                counts.skip[s][0] as int,
                counts.skip[s][1] as int,
                20,
                128,
            ),
        h.frame_is_intra ==> {
            &&& out.tx_probs == c.probs.tx_probs
            &&& out.skip_prob == c.probs.skip_prob
            &&& out.y_mode_probs == starting.y_mode_probs
            &&& out.uv_mode_probs == starting.uv_mode_probs
            &&& out.partition_probs == starting.partition_probs
            &&& out.inter_mode_probs == starting.inter_mode_probs
            &&& out.interp_filter_probs == starting.interp_filter_probs
            &&& out.is_inter_prob == starting.is_inter_prob
            &&& out.comp_mode_prob == starting.comp_mode_prob
            &&& out.single_ref_prob == starting.single_ref_prob
            &&& out.comp_ref_prob == starting.comp_ref_prob
            &&& out.mv_joint_probs == starting.mv_joint_probs
            &&& out.mv_sign_prob == starting.mv_sign_prob
            &&& out.mv_class_probs == starting.mv_class_probs
            &&& out.mv_class0_bit_prob == starting.mv_class0_bit_prob
            &&& out.mv_bits_prob == starting.mv_bits_prob
            &&& out.mv_class0_fr_probs == starting.mv_class0_fr_probs
            &&& out.mv_fr_probs == starting.mv_fr_probs
            &&& out.mv_class0_hp_prob == starting.mv_class0_hp_prob
            &&& out.mv_hp_prob == starting.mv_hp_prob
        },
{
    let rate = super::coef_update_factor(h.frame_is_intra, last);
    lemma_coefficients(starting.coef_probs, counts, rate, out.coef_probs, t, i, j, k, l);
    if !h.frame_is_intra {
        let base = CompressedHeaderProbs { coef_probs: out.coef_probs, ..starting };
        assert forall|s: int| 0 <= s < 3 implies #[trigger] out.skip_prob[s] == nudged(
            starting.skip_prob[s],
            counts.skip[s][0] as int,
            counts.skip[s][1] as int,
            20,
            128,
        ) by {
            lemma_block_flags(
                base,
                counts,
                h.interpolation_filter,
                c.tx_mode,
                h.allow_high_precision_mv,
                out,
                s,
            );
        }
    }
}

/// An inter frame that adapts but counted nothing saves what it started from: the
/// updates of its second header do not outlive it.
pub proof fn lemma_updates_do_not_outlive_the_frame(
    h: NewFrameHeader,
    starting: CompressedHeaderProbs,
    c: CompressedHeader,
    counts: Counts,
    last: Option<FrameType>,
    out: CompressedHeaderProbs,
)
    requires
        probs_refreshed(h, starting, c, counts, last, out),
        !h.error_resilient_mode,
        !h.frame_parallel_decoding_mode,
        !h.frame_is_intra,
        counts_zero(counts),
    ensures
        out == (CompressedHeaderProbs { coef_probs: out.coef_probs, ..starting }),
        forall|t: int, i: int, j: int, k: int, l: int, m: int|
            0 <= t < 4 && 0 <= i < 2 && 0 <= j < 2 && 0 <= k < 6 && 0 <= l < 6 && 0 <= m < 3
                ==> #[trigger] out.coef_probs[t][i][j][k][l][m]
                == starting.coef_probs[t][i][j][k][l][m],
{
    let rate = super::coef_update_factor(h.frame_is_intra, last);
    lemma_uncounted_coefs_unchanged(starting.coef_probs, counts, rate, out.coef_probs);
    lemma_uncounted_tables_unchanged(
        CompressedHeaderProbs { coef_probs: out.coef_probs, ..starting },
        counts,
        h.interpolation_filter,
        c.tx_mode,
        h.allow_high_precision_mv,
        out,
    );
}

/// What a frame's tiles start from: the tables and modes of its headers, and of the
/// past the segment ids, the references that its header names and, where the last
/// decoded frame had the same size and was shown, its mode info. An intra frame has
/// no references; one that starts afresh uses no earlier vectors.
pub proof fn lemma_tiles_start_from_headers(
    d: Decoder,
    h: NewFrameHeader,
    cc: ColorConfig,
    c: CompressedHeader,
    t: TileDecoder,
)
    requires
        tiles_begun(d, h, cc, c, t),
    ensures
        ({
            let f = t.frame;
            let vectors = !h.frame_is_intra && !h.error_resilient_mode && d.prev_frame_dims == Some(
                (h.width, h.height),
            ) && d.prev_show_frame == Some(true);
            &&& f.use_prev_frame_mvs == vectors
            &&& f.prev_mi_grid == if vectors {
                d.prev_mi_grid
            } else {
                None
            }
            &&& forall|i: int|
                0 <= i < 3 ==> #[trigger] f.resolved_refs[i] == if h.frame_is_intra {
                    None
                } else {
                    d.dpb.slots[h.ref_frame_idx[i] as int]
                }
            &&& f.prev_segment_ids == d.prev_segment_ids
            &&& f.probs == c.probs
            &&& f.tx_mode == c.tx_mode
            &&& f.reference_mode == c.reference_mode
            &&& f.comp_fixed_ref == c.comp_fixed_ref
            &&& f.comp_var_ref == c.comp_var_ref
            &&& f.frame_is_intra == h.frame_is_intra
            &&& f.segmentation == h.segmentation
            &&& f.quantization == h.quantization
            &&& f.frame_width == h.width && f.frame_height == h.height
            &&& f.mi_cols == (h.width as int + 7) / 8 && f.mi_rows == (h.height as int + 7) / 8
            &&& f.bit_depth == cc.bit_depth
            &&& f.subsampling_x == cc.subsampling_x && f.subsampling_y == cc.subsampling_y
            &&& f.interpolation_filter == h.interpolation_filter
            &&& f.allow_high_precision_mv == h.allow_high_precision_mv
            &&& f.ref_frame_sign_bias == h.ref_frame_sign_bias
            &&& f.tile_cols_log2 == h.tile_cols_log2 && f.tile_rows_log2 == h.tile_rows_log2
            &&& counts_zero(t.contexts.counts)
        }),
{
    assert forall|i: int| 0 <= i < 3 implies #[trigger] t.frame.resolved_refs[i]
        == if h.frame_is_intra {
        None
    } else {
        d.dpb.slots[h.ref_frame_idx[i] as int]
    } by {
        assert(t.frame.resolved_refs@[i] == t.frame.resolved_refs[i]);
    }
}

/// A frame that fails in its tiles, or before them, leaves every picture and every
/// setting that headers and vectors depend on; only contexts and segment ids that a
/// frame that starts afresh sets back, and the noted sample format, can differ.
pub proof fn lemma_failure_leaves_behind<L: BlockLayer>(
    before: Session<L>,
    d: Seq<u8>,
    consumed: int,
    h: NewFrameHeader,
    after: Session<L>,
    e: DecodeError,
)
    requires
        new_frame(before, d, consumed, h, after, Err(e)),
        h.frame_context_idx < 4,
    ensures
        after.decoder.dpb == before.decoder.dpb,
        after.decoder.persist == before.decoder.persist,
        after.decoder.prev_mi_grid == before.decoder.prev_mi_grid,
        after.decoder.prev_frame_dims == before.decoder.prev_frame_dims,
        after.decoder.prev_show_frame == before.decoder.prev_show_frame,
        after.decoder.last_frame_type == before.decoder.last_frame_type,
        forall|k: int|
            0 <= k < 4 ==> #[trigger] after.decoder.frame_contexts.contexts[k]
                == before.decoder.frame_contexts.contexts[k]
                || after.decoder.frame_contexts.contexts[k] == slot_begun(before.decoder, h, k),
        !h.frame_is_intra && !h.error_resilient_mode ==> after.decoder.frame_contexts
            == before.decoder.frame_contexts,
        !h.frame_is_intra ==> after.decoder.last_color_config == before.decoder.last_color_config,
{
    assert forall|begun: Decoder, k: int|
        frame_begun(before.decoder, h, begun) && 0 <= k < 4
            implies #[trigger] begun.frame_contexts.contexts[k] == slot_begun(
        before.decoder,
        h,
        k,
    ) by {
        lemma_slots_begun(before.decoder, h, begun, k);
    }
}

/// Every frame that a decoder accepts has been read by its header, and has left
/// behind what that says.
pub proof fn lemma_accepted_frame<L: BlockLayer>(
    before: Session<L>,
    d: Seq<u8>,
    after: Session<L>,
    out: DecodedFrame,
) -> (r: (NewFrameHeader, int))
    requires
        before.decoder.wf(),
        one_frame(before, d, after, Ok(out)),
        header_refusal(d) is None,
        !shows_existing(d),
    ensures
        header_at(d, before.decoder.persist, r.0),
        new_frame(before, d, r.1, r.0, after, Ok(out)),
        8 * r.1 >= crate::header::header_size_pos(d, before.decoder.persist) + 16,
        8 * r.1 < crate::header::header_size_pos(d, before.decoder.persist) + 16 + 8,
{
    let h = choose|h: NewFrameHeader|
        #![trigger header_at(d, before.decoder.persist, h)]
        header_at(d, before.decoder.persist, h) && new_frame(
            before,
            d,
            crate::header::units8(
                crate::header::header_size_pos(d, before.decoder.persist) + 16,
            ),
            h,
            after,
            Ok(out),
        );
    (h, crate::header::units8(crate::header::header_size_pos(d, before.decoder.persist) + 16))
}

/// A plane of a picture holds, row by row, the samples of the upper left part of the
/// plane that it was cut out of.
pub open spec fn cut_out(d: PlaneData, p: Plane, w: int, h: int) -> bool {
    forall|x: int, y: int|
        0 <= x < w && 0 <= y < h ==> match d {
            PlaneData::U8(v) => v@.len() == w * h && #[trigger] p.at(x, y) % 256 == v@[y * w + x],
            PlaneData::U16(v) => v@.len() == w * h && p.at(x, y) == v@[y * w + x],
        }
}

proof fn lemma_cut_out(d: PlaneData, p: Plane, w: int, h: int, bit_depth: u8)
    requires
        holds_samples(d, top_left(p, w, h), bit_depth),
        p.x0 == 0,
        0 <= w,
        0 <= h,
    ensures
        cut_out(d, p, w, h),
        d is U8 <==> bit_depth == 8,
{
    assert forall|x: int, y: int| 0 <= x < w && 0 <= y < h implies match d {
        PlaneData::U8(v) => v@.len() == w * h && #[trigger] p.at(x, y) % 256 == v@[y * w + x],
        PlaneData::U16(v) => v@.len() == w * h && p.at(x, y) == v@[y * w + x],
    } by {
        lemma_row_major(w, h, x, y);
        assert(row_major(w, x, y) == y * w + x);
        assert(top_left(p, w, h)[y * w + x] == p.at(x, y));
    }
}

/// A picture has the size and format of its frame; its planes are the upper left
/// parts of the decoded ones, in bytes where samples have 8 bits. Chroma planes of a
/// subsampled format have half the size, rounded up.
pub proof fn lemma_picture_of_planes(
    f: Frame,
    planes: Seq<Plane>,
    width: u32,
    height: u32,
    c: ColorConfig,
)
    requires
        frame_of(f, planes, width, height, c),
        planes.len() == 3,
        planes[0].x0 == 0,
        planes[1].x0 == 0,
        planes[2].x0 == 0,
        c.subsampling_x <= 1,
        c.subsampling_y <= 1,
    ensures
        ({
            let uw = if c.subsampling_x == 1 {
                (width as int + 1) / 2
            } else {
                width as int
            };
            let uh = if c.subsampling_y == 1 {
                (height as int + 1) / 2
            } else {
                height as int
            };
            &&& f.width == width && f.height == height && f.bit_depth == c.bit_depth
            &&& f.subsampling_x == c.subsampling_x && f.subsampling_y == c.subsampling_y
            &&& cut_out(f.y, planes[0], width as int, height as int)
            &&& cut_out(f.u, planes[1], uw, uh)
            &&& cut_out(f.v, planes[2], uw, uh)
            &&& f.y is U8 <==> c.bit_depth == 8
        }),
{
    lemma_cut_out(f.y, planes[0], width as int, height as int, c.bit_depth);
    let uw = super::chroma_len(width as int, c.subsampling_x as int);
    let uh = super::chroma_len(height as int, c.subsampling_y as int);
    assert(c.subsampling_x == 0 || c.subsampling_x == 1);
    assert(c.subsampling_y == 0 || c.subsampling_y == 1);
    assert((width as int + 0) / 1 == width && (height as int + 0) / 1 == height);
    lemma_cut_out(f.u, planes[1], uw, uh, c.bit_depth);
    lemma_cut_out(f.v, planes[2], uw, uh, c.bit_depth);
}

/// A reference frame has the size and format of its frame, and its planes hold the
/// samples of the decoded ones at the same places.
pub proof fn lemma_reference_of_planes(
    r: RefFrameData,
    planes: Seq<Plane>,
    width: u32,
    height: u32,
    c: ColorConfig,
    x: int,
    y: int,
)
    requires
        reference_of(r, planes, width, height, c),
        planes.len() == 3,
        planes[0].x0 == 0,
        planes[1].x0 == 0,
        planes[2].x0 == 0,
    ensures
        r.width == width && r.height == height && r.bit_depth == c.bit_depth,
        r.subsampling_x == c.subsampling_x && r.subsampling_y == c.subsampling_y,
        0 <= x < width && 0 <= y < height ==> r.y.at(x, y) == planes[0].at(x, y),
        r.u.contains(x, y) ==> r.u.at(x, y) == planes[1].at(x, y),
        r.v.contains(x, y) ==> r.v.at(x, y) == planes[2].at(x, y),
{
    if 0 <= x < width && 0 <= y < height {
        lemma_crop_keeps_samples(planes[0], r.y, x, y);
    }
    if r.u.contains(x, y) {
        lemma_crop_keeps_samples(planes[1], r.u, x, y);
    }
    if r.v.contains(x, y) {
        lemma_crop_keeps_samples(planes[2], r.v, x, y);
    }
}

/// The loop filter runs over all three planes where its level is above 0, with the mode
/// info, size, subsampling, segments and bit depth of the frame, and changes nothing
/// else; at level 0 it changes nothing.
pub proof fn lemma_filter_runs(
    before: TileDecoder,
    lf: LoopFilterParams,
    after: TileDecoder,
    p: int,
)
    requires
        tiles_filtered(before, lf, after),
        0 <= p < 3,
    ensures
        lf.level == 0 ==> after == before,
        lf.level >= 1 ==> {
            let f = filter_frame(&before.frame, &lf);
            &&& after.frame.planes[p].samples() == plane_filtered(
                f,
                p,
                before.frame.planes[p].width as int,
                before.frame.planes[p].samples(),
            )
            &&& *f.mi_grid == before.frame.mi_grid
            &&& f.mi_cols == before.frame.mi_cols
            &&& f.mi_rows == before.frame.mi_rows
            &&& f.subsampling_x == before.frame.subsampling_x
            &&& f.subsampling_y == before.frame.subsampling_y
            &&& *f.lf == lf
            &&& *f.seg == before.frame.segmentation
            &&& f.bit_depth == before.frame.bit_depth
            &&& after.frame.mi_grid == before.frame.mi_grid
            &&& after.contexts == before.contexts
        },
{
    let q = after.frame.planes[p];
}

/// What is told of a frame: its kind, its reset code, and of the four features those
/// that some segment has while segmentation is on.
pub proof fn lemma_told(h: NewFrameHeader, info: FrameDecodeInfo, s: int, l: int)
    requires
        info_of(h, info),
        0 <= s < 8,
        0 <= l < 4,
    ensures
        info.frame_is_intra == h.frame_is_intra,
        info.intra_only == h.intra_only,
        info.reset_frame_context == h.reset_frame_context,
        info.segmentation_enabled == h.segmentation.enabled,
        h.segmentation.enabled && h.segmentation.feature_enabled[s][l]
            ==> info.seg_features_active[l],
        !h.segmentation.enabled ==> !info.seg_features_active[l],
        (forall|t: int| 0 <= t < 8 ==> !#[trigger] h.segmentation.feature_enabled[t][l])
            ==> !info.seg_features_active[l],
{
    let a = info.seg_features_active[l];
}

/// A frame is refused before its tiles for the first of these reasons: its second
/// header goes beyond the data, it is too large, its second header cannot be read, or a
/// reference that is there has another bit depth or subsampling. Otherwise its tiles
/// are decoded.
pub proof fn lemma_refusals(before: Decoder, d: Seq<u8>, consumed: int, h: NewFrameHeader)
    requires
        0 <= consumed,
    ensures
        ({
            let e = start_refusal(before, d, consumed, h);
            let c = second_header(d, consumed, h);
            let short = consumed + h.header_size_in_bytes > d.len();
            let large = h.width * h.height > crate::header::MAX_FRAME_LUMA_SAMPLES;
            let cc = frame_config(before, h);
            let mismatch = !h.frame_is_intra && exists|i: int|
                0 <= i < 3 && (before.dpb.slots[(#[trigger] h.ref_frame_idx[i]) as int] matches Some(
                    r,
                ) && !(r.bit_depth == cc.bit_depth && r.subsampling_x == cc.subsampling_x
                    && r.subsampling_y == cc.subsampling_y));
            &&& short ==> e == Some(DecodeError::TruncatedFrame)
            &&& !short && large ==> e == Some(DecodeError::Header(HeaderError::FrameSizeTooLarge))
            &&& !short && !large && h.header_size_in_bytes == 0 ==> e == Some(
                DecodeError::CompressedHeader(
                    CompressedHeaderError::BoolCoder(BoolCoderError::EmptyBuffer),
                ),
            )
            &&& !short && !large && h.header_size_in_bytes > 0 && c[0] >= 128 ==> e == Some(
                DecodeError::CompressedHeader(
                    CompressedHeaderError::BoolCoder(BoolCoderError::InvalidMarker),
                ),
            )
            &&& !short && !large && h.header_size_in_bytes > 0 && c[0] < 128 && mismatch ==> e
                == Some(DecodeError::Header(HeaderError::RefFrameFormatMismatch))
            &&& !short && !large && h.header_size_in_bytes > 0 && c[0] < 128 && !mismatch ==> e
                is None
        }),
{
    let c = second_header(d, consumed, h);
    if consumed + h.header_size_in_bytes <= d.len() {
        assert(c.len() == h.header_size_in_bytes);
        if c.len() > 0 {
            crate::bool_coder::lemma_decoder_start(c);
        }
    }
}

/// The sample format of a frame is that of its header; an inter frame has that of the
/// last intra frame, or 8 bits and half the chroma both ways where there was none.
pub proof fn lemma_format(d: Decoder, h: NewFrameHeader)
    ensures
        h.color_config is Some ==> frame_config(d, h) == h.color_config->0,
        h.color_config is None && d.last_color_config is Some ==> frame_config(d, h)
            == d.last_color_config->0,
        h.color_config is None && d.last_color_config is None ==> {
            let c = frame_config(d, h);
            c.bit_depth == 8 && c.subsampling_x == 1 && c.subsampling_y == 1 && c.color_space == 0
                && !c.color_range
        },
{
}

/// Of the pictures of a chunk the last that is shown is kept; whatever else is told of
/// its frames stays.
pub proof fn lemma_last_picture_is_kept(outs: Seq<DecodedFrame>, k: int)
    requires
        0 <= k < outs.len(),
    ensures
        last_shown(outs).len() == outs.len(),
        last_shown(outs)[k].info == outs[k].info,
        (forall|j: int| k < j < outs.len() ==> (#[trigger] outs[j]).frame is None)
            ==> last_shown(outs)[k] == outs[k],
        (exists|j: int| k < j < outs.len() && (#[trigger] outs[j]).frame is Some)
            ==> last_shown(outs)[k].frame is None,
{
}

} // verus!
