//! Headers that were written field by field are read back.
//!
//! Each part of a header has a description of what it says. A part is written at a
//! position where its fields stand there one after the other; reading it gives the
//! description back, and ends where the part ends.

use vstd::arithmetic::power2::{lemma2_to64, pow2};
use vstd::prelude::*;
use crate::bit_reader::{bit_at, bits_value, lemma_bits_value_range};
use super::{
    color_config_at, color_config_end, context_pos, delta_q_end, feature_pos, header_at,
    header_size_pos, lf_deltas_end, loop_filter_at, loop_filter_end, probs_end, quantization_at,
    quantization_end, quantization_pos, segmentation_at, segmentation_end, segmentation_pos,
    tile_cols_end, tile_cols_log2_from, tile_pos, ColorConfig, FrameType, HeaderError, LoopFilterDeltas,
    LoopFilterParams, NewFrameHeader, PersistentState, SegFeaturePersist, SegmentationParams,
};

verus! {

/// The `n` bits at `p` hold `v`, the most significant first.
pub open spec fn field(d: Seq<u8>, p: int, n: nat, v: int) -> bool {
    bits_value(d, p, n) == v
}

/// The bit at `p` is set or not.
pub open spec fn flag(d: Seq<u8>, p: int, b: bool) -> bool {
    bit_at(d, p) == if b {
        1int
    } else {
        0
    }
}

/// The magnitude of `v` stands in the `n` bits at `p`, and behind it its sign.
pub open spec fn signed(d: Seq<u8>, p: int, n: nat, v: int) -> bool {
    field(
        d,
        p,
        n,
        if v < 0 {
            -v
        } else {
            v
        },
    ) && flag(d, p + n, v < 0)
}

/// Where the `k`-th of a run of optional values stands that take `n` bits behind a
/// flag, the first of them at `p`.
pub open spec fn optional_pos(us: Seq<Option<int>>, p: int, n: int, k: nat) -> int
    decreases k,
{
    if k == 0 {
        p
    } else {
        optional_pos(us, p, n, (k - 1) as nat) + if us[k - 1] is Some {
            1 + n
        } else {
            1
        }
    }
}

// ---------------------------------------------------------------------------
// Loop filter.
// ---------------------------------------------------------------------------

/// What a header says of the loop filter: the deltas may be off, on, or on with new
/// values for some of them, four for references and two for modes.
pub struct FilterText {
    pub level: int,
    pub sharpness: int,
    pub deltas: Option<Option<Seq<Option<int>>>>,
}

/// The text of the loop filter is written from `p` to `end`.
pub open spec fn filter_written(d: Seq<u8>, p: int, x: FilterText, end: int) -> bool {
    &&& field(d, p, 6, x.level)
    &&& field(d, p + 6, 3, x.sharpness)
    &&& flag(d, p + 9, x.deltas is Some)
    &&& match x.deltas {
        None => end == p + 10,
        Some(update) => {
            &&& flag(d, p + 10, update is Some)
            &&& match update {
                None => end == p + 11,
                Some(us) => {
                    &&& us.len() == 6
                    &&& end == optional_pos(us, p + 11, 7, 6)
                    &&& forall|k: int|
                        #![trigger us[k]]
                        0 <= k < 6 ==> {
                            let q = optional_pos(us, p + 11, 7, k as nat);
                            &&& flag(d, q, us[k] is Some)
                            &&& us[k] matches Some(v) ==> -63 <= v <= 63 && signed(d, q + 1, 6, v)
                        }
                },
            }
        },
    }
}

proof fn lemma_filter_positions(d: Seq<u8>, p: int, us: Seq<Option<int>>, k: nat)
    requires
        k <= us.len(),
        forall|i: int|
            #![trigger us[i]]
            0 <= i < us.len() ==> flag(d, optional_pos(us, p, 7, i as nat), us[i] is Some),
    ensures
        lf_deltas_end(d, p, k) == optional_pos(us, p, 7, k),
    decreases k,
{
    if k > 0 {
        lemma_filter_positions(d, p, us, (k - 1) as nat);
        let u = us[k - 1];
    }
}

/// The loop filter's text is read back: a delta that is not given keeps its value, or
/// its default in a frame that starts afresh.
pub proof fn lemma_filter_read_back(
    d: Seq<u8>,
    p: int,
    x: FilterText,
    end: int,
    reset: bool,
    prev: LoopFilterDeltas,
    lf: LoopFilterParams,
    i: int,
    j: int,
)
    requires
        filter_written(d, p, x, end),
        loop_filter_at(d, p, reset, prev, lf),
        0 <= i < 4,
        0 <= j < 2,
    ensures
        lf.level == x.level,
        lf.sharpness == x.sharpness,
        lf.delta_enabled == (x.deltas is Some),
        loop_filter_end(d, p) == end,
        ({
            let defaults = seq![1int, 0, -1, -1];
            let base_ref = if reset {
                defaults[i]
            } else {
                prev.ref_deltas[i] as int
            };
            let base_mode = if reset {
                0
            } else {
                prev.mode_deltas[j] as int
            };
            match x.deltas {
                Some(Some(us)) => {
                    &&& lf.ref_deltas[i] == match us[i] {
                        Some(v) => v,
                        None => base_ref,
                    }
                    &&& lf.mode_deltas[j] == match us[4 + j] {
                        Some(v) => v,
                        None => base_mode,
                    }
                },
                _ => lf.ref_deltas[i] == base_ref && lf.mode_deltas[j] == base_mode,
            }
        }),
{
    assert(i == 0 || i == 1 || i == 2 || i == 3);
    assert(j == 0 || j == 1);
    let r = lf.ref_deltas[i];
    let m = lf.mode_deltas[j];
    match x.deltas {
        Some(Some(us)) => {
            assert forall|k: int|
                #![trigger us[k]]
                0 <= k < us.len() implies flag(d, optional_pos(us, p + 11, 7, k as nat), us[k] is Some) by {}
            lemma_filter_positions(d, p + 11, us, i as nat);
            lemma_filter_positions(d, p + 11, us, (4 + j) as nat);
            lemma_filter_positions(d, p + 11, us, 6);
            let a = us[i];
            let b = us[4 + j];
        },
        _ => {},
    }
}

// ---------------------------------------------------------------------------
// Quantization.
// ---------------------------------------------------------------------------

/// The base index and the three optional deltas of the quantization are written from
/// `p` to `end`.
pub open spec fn quantization_written(
    d: Seq<u8>,
    p: int,
    base: int,
    us: Seq<Option<int>>,
    end: int,
) -> bool {
    &&& us.len() == 3
    &&& field(d, p, 8, base)
    &&& end == optional_pos(us, p + 8, 5, 3)
    &&& forall|k: int|
        #![trigger us[k]]
        0 <= k < 3 ==> {
            let q = optional_pos(us, p + 8, 5, k as nat);
            &&& flag(d, q, us[k] is Some)
            &&& us[k] matches Some(v) ==> -15 <= v <= 15 && signed(d, q + 1, 4, v)
        }
}

/// The quantization is read back: deltas of luma DC, chroma DC and chroma AC, in this
/// order; one that is not given is 0. A frame is lossless where the base index and all
/// deltas are 0.
pub proof fn lemma_quantization_read_back(
    d: Seq<u8>,
    p: int,
    base: int,
    us: Seq<Option<int>>,
    end: int,
)
    requires
        quantization_written(d, p, base, us, end),
    ensures
        ({
            let q = quantization_at(d, p);
            let v = |k: int|
                match us[k] {
                    Some(v) => v,
                    None => 0int,
                };
            &&& q.base_q_idx == base
            &&& q.delta_q_y_dc == v(0)
            &&& q.delta_q_uv_dc == v(1)
            &&& q.delta_q_uv_ac == v(2)
            &&& q.lossless == (base == 0 && v(0) == 0 && v(1) == 0 && v(2) == 0)
            &&& quantization_end(d, p) == end
        }),
{
    lemma2_to64();
    lemma_bits_value_range(d, p, 8);
    reveal_with_fuel(optional_pos, 4);
    let a = us[0];
    let b = us[1];
    let c = us[2];
    assert(optional_pos(us, p + 8, 5, 0) == p + 8);
    assert(optional_pos(us, p + 8, 5, 1) == delta_q_end(d, p + 8));
    assert(optional_pos(us, p + 8, 5, 2) == delta_q_end(d, delta_q_end(d, p + 8)));
}

// ---------------------------------------------------------------------------
// Segmentation.
// ---------------------------------------------------------------------------

/// What a header says of segmentation that is on: the probabilities of the map where
/// it is updated, of its prediction where it is predicted, and the features where they
/// are updated, by segment and kind.
pub struct SegmentText {
    pub map: Option<Seq<Option<int>>>,
    pub prediction: Option<Seq<Option<int>>>,
    pub features: Option<(bool, Seq<Option<int>>)>,
}

/// Optional probabilities are written from `p` on.
pub open spec fn probs_written(d: Seq<u8>, p: int, us: Seq<Option<int>>) -> bool {
    forall|k: int|
        #![trigger us[k]]
        0 <= k < us.len() ==> {
            let q = optional_pos(us, p, 8, k as nat);
            &&& flag(d, q, us[k] is Some)
            &&& us[k] matches Some(v) ==> 0 <= v <= 255 && field(d, q + 1, 8, v)
        }
}

/// The bits of a feature's value: of the quantizer 8 and a sign, of the filter level 6
/// and a sign, of the reference frame 2, of skipping none.
pub open spec fn feature_bits(kind: int) -> nat {
    if kind == 0 {
        8
    } else if kind == 1 {
        6
    } else if kind == 2 {
        2
    } else {
        0
    }
}

/// Where the `k`-th feature stands; there are four kinds for each segment.
pub open spec fn written_feature_pos(us: Seq<Option<int>>, p: int, k: nat) -> int
    decreases k,
{
    if k == 0 {
        p
    } else {
        written_feature_pos(us, p, (k - 1) as nat) + if us[k - 1] is None {
            1
        } else if (k - 1) % 4 < 2 {
            2 + feature_bits((k - 1) % 4)
        } else {
            1 + feature_bits((k - 1) % 4)
        }
    }
}

/// The `k`-th feature is written in its place.
pub open spec fn feature_written(d: Seq<u8>, p: int, us: Seq<Option<int>>, k: int) -> bool {
    let q = written_feature_pos(us, p, k as nat);
    &&& flag(d, q, us[k] is Some)
    &&& us[k] matches Some(v) ==> if k % 4 < 2 {
        signed(d, q + 1, feature_bits(k % 4), v)
    } else {
        v >= 0 && field(d, q + 1, feature_bits(k % 4), v)
    }
}

/// The features are written from `p` on.
pub open spec fn features_written(d: Seq<u8>, p: int, us: Seq<Option<int>>) -> bool {
    forall|k: int| 0 <= k < us.len() ==> #[trigger] feature_written(d, p, us, k)
}

/// The text of segmentation that is on is written from `p` to `end`.
pub open spec fn segments_written(d: Seq<u8>, p: int, x: SegmentText, end: int) -> bool {
    let q1 = match x.map {
        None => p + 2,
        Some(us) => {
            let t = optional_pos(us, p + 2, 8, 7);
            match x.prediction {
                None => t + 1,
                Some(vs) => optional_pos(vs, t + 1, 8, 3),
            }
        },
    };
    &&& flag(d, p, true)
    &&& flag(d, p + 1, x.map is Some)
    &&& x.map matches Some(us) ==> {
        let t = optional_pos(us, p + 2, 8, 7);
        &&& us.len() == 7
        &&& probs_written(d, p + 2, us)
        &&& flag(d, t, x.prediction is Some)
        &&& x.prediction matches Some(vs) ==> vs.len() == 3 && probs_written(d, t + 1, vs)
    }
    &&& x.map is None ==> x.prediction is None
    &&& flag(d, q1, x.features is Some)
    &&& match x.features {
        None => end == q1 + 1,
        Some((absolute, us)) => {
            &&& us.len() == 32
            &&& flag(d, q1 + 1, absolute)
            &&& features_written(d, q1 + 2, us)
            &&& end == written_feature_pos(us, q1 + 2, 32)
        },
    }
}

proof fn lemma_prob_positions(d: Seq<u8>, p: int, us: Seq<Option<int>>, k: nat)
    requires
        k <= us.len(),
        probs_written(d, p, us),
    ensures
        probs_end(d, p, k) == optional_pos(us, p, 8, k),
    decreases k,
{
    if k > 0 {
        lemma_prob_positions(d, p, us, (k - 1) as nat);
        let u = us[k - 1];
    }
}

proof fn lemma_feature_positions(d: Seq<u8>, p: int, us: Seq<Option<int>>, k: nat)
    requires
        k <= us.len(),
        features_written(d, p, us),
    ensures
        feature_pos(d, p, k) == written_feature_pos(us, p, k),
    decreases k,
{
    if k > 0 {
        lemma_feature_positions(d, p, us, (k - 1) as nat);
        assert(feature_written(d, p, us, k - 1));
        let l = (k - 1) % 4;
        assert(l == 0 || l == 1 || l == 2 || l == 3);
    }
}

/// Segmentation is read back. Probabilities that are not given are 255; features that
/// are not updated are kept, or gone in a frame that starts afresh.
#[verifier::spinoff_prover]
#[verifier::rlimit(40)]
pub proof fn lemma_segments_read_back(
    d: Seq<u8>,
    p: int,
    x: SegmentText,
    end: int,
    reset: bool,
    prev: SegFeaturePersist,
    seg: SegmentationParams,
    i: int,
    j: int,
    s: int,
    l: int,
)
    requires
        segments_written(d, p, x, end),
        segmentation_at(d, p, reset, prev, seg),
        0 <= i < 7,
        0 <= j < 3,
        0 <= s < 8,
        0 <= l < 4,
    ensures
        seg.enabled,
        seg.update_map == (x.map is Some),
        seg.temporal_update == (x.prediction is Some),
        segmentation_end(d, p) == end,
        seg.tree_probs[i] == match x.map {
            Some(us) => match us[i] {
                Some(v) => v,
                None => 255,
            },
            None => 255int,
        },
        seg.pred_prob[j] == match x.prediction {
            Some(us) => match us[j] {
                Some(v) => v,
                None => 255,
            },
            None => 255int,
        },
        match x.features {
            Some((absolute, us)) => {
                &&& seg.abs_or_delta_update == absolute
                &&& seg.feature_enabled[s][l] == (us[4 * s + l] is Some)
                &&& seg.feature_data[s][l] == match us[4 * s + l] {
                    Some(v) => v,
                    None => 0,
                }
            },
            None => {
                &&& seg.abs_or_delta_update == (!reset && prev.abs_or_delta)
                &&& seg.feature_enabled[s][l] == (!reset && prev.enabled[s][l])
                &&& seg.feature_data[s][l] == if reset {
                    0
                } else {
                    prev.data[s][l] as int
                }
            },
        },
{
    lemma_segment_map(d, p, x, end, reset, prev, seg, i, j);
    lemma_segment_features(d, p, x, end, reset, prev, seg, s, l);
}

/// Where the flag for new features stands.
spec fn features_flag_pos(x: SegmentText, p: int) -> int {
    match x.map {
        None => p + 2,
        Some(us) => {
            let t = optional_pos(us, p + 2, 8, 7);
            match x.prediction {
                None => t + 1,
                Some(vs) => optional_pos(vs, t + 1, 8, 3),
            }
        },
    }
}

proof fn lemma_segment_positions(d: Seq<u8>, p: int, x: SegmentText, end: int)
    requires
        segments_written(d, p, x, end),
    ensures
        super::seg_updates_map(d, p) == (x.map is Some),
        super::seg_temporal(d, p) == (x.prediction is Some),
        super::update_data_pos(d, p) == features_flag_pos(x, p),
        super::seg_updates_data(d, p) == (x.features is Some),
        x.map is Some ==> super::temporal_pos(d, p) == optional_pos(x.map->0, p + 2, 8, 7),
{
    match x.map {
        Some(us) => {
            lemma_prob_positions(d, p + 2, us, 7);
            let t = optional_pos(us, p + 2, 8, 7);
            match x.prediction {
                Some(vs) => {
                    lemma_prob_positions(d, t + 1, vs, 3);
                },
                None => {},
            }
        },
        None => {},
    }
}

#[verifier::spinoff_prover]
proof fn lemma_segment_map(
    d: Seq<u8>,
    p: int,
    x: SegmentText,
    end: int,
    reset: bool,
    prev: SegFeaturePersist,
    seg: SegmentationParams,
    i: int,
    j: int,
)
    requires
        segments_written(d, p, x, end),
        segmentation_at(d, p, reset, prev, seg),
        0 <= i < 7,
        0 <= j < 3,
    ensures
        seg.enabled,
        seg.update_map == (x.map is Some),
        seg.temporal_update == (x.prediction is Some),
        seg.tree_probs[i] == match x.map {
            Some(us) => match us[i] {
                Some(v) => v,
                None => 255,
            },
            None => 255int,
        },
        seg.pred_prob[j] == match x.prediction {
            Some(us) => match us[j] {
                Some(v) => v,
                None => 255,
            },
            None => 255int,
        },
{
    lemma_segment_positions(d, p, x, end);
    let tp = seg.tree_probs[i];
    let pp = seg.pred_prob[j];
    match x.map {
        Some(us) => {
            lemma_prob_positions(d, p + 2, us, i as nat);
            let u = us[i];
            let t = optional_pos(us, p + 2, 8, 7);
            match x.prediction {
                Some(vs) => {
                    lemma_prob_positions(d, t + 1, vs, j as nat);
                    let v = vs[j];
                },
                None => {},
            }
        },
        None => {},
    }
}

proof fn lemma_feature_value(d: Seq<u8>, p: int, us: Seq<Option<int>>, s: int, l: int)
    requires
        features_written(d, p, us),
        us.len() == 32,
        0 <= s < 8,
        0 <= l < 4,
    ensures
        ({
            let q = feature_pos(d, p, (4 * s + l) as nat);
            &&& super::flag_at(d, q) == (us[4 * s + l] is Some)
            &&& super::feature_value_at(d, q, l) == match us[4 * s + l] {
                Some(v) => v,
                None => 0,
            }
        }),
{
    let k = 4 * s + l;
    assert(k % 4 == l && 0 <= k < 32);
    lemma_feature_positions(d, p, us, k as nat);
    let q = written_feature_pos(us, p, k as nat);
    assert(feature_written(d, p, us, k));
    lemma_feature_reads(d, q, us[k], l);
}

proof fn lemma_feature_reads(d: Seq<u8>, q: int, u: Option<int>, l: int)
    requires
        0 <= l < 4,
        flag(d, q, u is Some),
        u matches Some(v) ==> if l < 2 {
            signed(d, q + 1, feature_bits(l), v)
        } else {
            v >= 0 && field(d, q + 1, feature_bits(l), v)
        },
    ensures
        super::flag_at(d, q) == (u is Some),
        super::feature_value_at(d, q, l) == match u {
            Some(v) => v,
            None => 0,
        },
{
    assert(l == 0 || l == 1 || l == 2 || l == 3);
    assert(super::SEGMENTATION_FEATURE_BITS[l] == feature_bits(l));
    assert(super::SEGMENTATION_FEATURE_SIGNED[l] == (l < 2));
}

proof fn lemma_kept_features(
    d: Seq<u8>,
    p: int,
    reset: bool,
    prev: SegFeaturePersist,
    seg: SegmentationParams,
    s: int,
    l: int,
)
    requires
        segmentation_at(d, p, reset, prev, seg),
        0 <= s < 8,
        0 <= l < 4,
    ensures
        ({
            let q = super::update_data_pos(d, p);
            let at = feature_pos(d, q + 2, (4 * s + l) as nat);
            &&& super::seg_updates_data(d, p) ==> {
                &&& seg.abs_or_delta_update == super::flag_at(d, q + 1)
                &&& seg.feature_enabled[s][l] == super::flag_at(d, at)
                &&& seg.feature_data[s][l] == super::feature_value_at(d, at, l)
            }
            &&& !super::seg_updates_data(d, p) ==> {
                &&& seg.abs_or_delta_update == (!reset && prev.abs_or_delta)
                &&& seg.feature_enabled[s][l] == (!reset && prev.enabled[s][l])
                &&& seg.feature_data[s][l] == if reset {
                    0
                } else {
                    prev.data[s][l] as int
                }
            }
        }),
{
    let fe = seg.feature_enabled[s][l];
    let fd = seg.feature_data[s][l];
}

#[verifier::spinoff_prover]
proof fn lemma_segment_features(
    d: Seq<u8>,
    p: int,
    x: SegmentText,
    end: int,
    reset: bool,
    prev: SegFeaturePersist,
    seg: SegmentationParams,
    s: int,
    l: int,
)
    requires
        segments_written(d, p, x, end),
        segmentation_at(d, p, reset, prev, seg),
        0 <= s < 8,
        0 <= l < 4,
    ensures
        segmentation_end(d, p) == end,
        match x.features {
            Some((absolute, us)) => {
                &&& seg.abs_or_delta_update == absolute
                &&& seg.feature_enabled[s][l] == (us[4 * s + l] is Some)
                &&& seg.feature_data[s][l] == match us[4 * s + l] {
                    Some(v) => v,
                    None => 0,
                }
            },
            None => {
                &&& seg.abs_or_delta_update == (!reset && prev.abs_or_delta)
                &&& seg.feature_enabled[s][l] == (!reset && prev.enabled[s][l])
                &&& seg.feature_data[s][l] == if reset {
                    0
                } else {
                    prev.data[s][l] as int
                }
            },
        },
{
    lemma_segment_positions(d, p, x, end);
    let q = features_flag_pos(x, p);
    lemma_kept_features(d, p, reset, prev, seg, s, l);
    match x.features {
        Some((absolute, us)) => {
            lemma_feature_value(d, q + 2, us, s, l);
            lemma_feature_positions(d, q + 2, us, 32);
        },
        None => {},
    }
}

/// A cleared flag turns segmentation off; what was kept of the features stays known,
/// unless the frame starts afresh.
pub proof fn lemma_segments_off(
    d: Seq<u8>,
    p: int,
    reset: bool,
    prev: SegFeaturePersist,
    seg: SegmentationParams,
    s: int,
    l: int,
)
    requires
        flag(d, p, false),
        segmentation_at(d, p, reset, prev, seg),
        0 <= s < 8,
        0 <= l < 4,
    ensures
        !seg.enabled && !seg.update_map && !seg.temporal_update,
        seg.feature_enabled[s][l] == (!reset && prev.enabled[s][l]),
        seg.feature_data[s][l] == if reset {
            0
        } else {
            prev.data[s][l] as int
        },
        segmentation_end(d, p) == p + 1,
{
    let fe = seg.feature_enabled[s][l];
    let fd = seg.feature_data[s][l];
}

// ---------------------------------------------------------------------------
// Tiles.
// ---------------------------------------------------------------------------

/// The number of tile columns is written as set bits from the least possible on, one
/// for each doubling, and a cleared bit unless it is the greatest possible.
pub proof fn lemma_tile_columns_read_back(d: Seq<u8>, p: int, least: int, most: int, log2: int)
    requires
        least <= log2 <= most,
        forall|k: int| p <= k < p + log2 - least ==> #[trigger] bit_at(d, k) == 1,
        log2 < most ==> flag(d, p + log2 - least, false),
    ensures
        tile_cols_log2_from(d, p, least, most) == log2,
        tile_cols_end(d, p, least, most) == p + log2 - least + if log2 < most {
            1int
        } else {
            0
        },
    decreases log2 - least,
{
    if least < log2 {
        assert(bit_at(d, p) == 1);
        lemma_tile_columns_read_back(d, p + 1, least + 1, most, log2);
    }
}

/// A tile has at most 64 superblocks across and, where there are several columns, at
/// least 4: the limits of the number of columns.
pub proof fn lemma_tile_column_limits(sb: int, log2: nat)
    requires
        0 <= sb <= 1024,
        log2 <= 10,
    ensures
        super::min_log2_tile_cols(sb) <= log2 <==> sb <= 64 * pow2(log2),
        log2 <= super::max_log2_tile_cols(sb) <==> log2 == 0 || 4 * pow2(log2) <= sb,
    decreases log2,
{
    lemma2_to64();
    super::lemma_tile_cols_limits(sb, 4);
    super::lemma_tile_cols_limits((sb + 1) / 2, 4);
    if log2 > 0 {
        vstd::arithmetic::power2::lemma_pow2_unfold(log2);
        vstd::arithmetic::power2::lemma_pow2_pos((log2 - 1) as nat);
        let k = (log2 - 1) as nat;
        if sb > 64 {
            lemma_tile_column_limits((sb + 1) / 2, k);
        }
        if sb >= 8 {
            lemma_tile_column_limits(sb / 2, k);
        }
    }
}

// ---------------------------------------------------------------------------
// Start, format and sizes.
// ---------------------------------------------------------------------------

/// How a header of a new frame starts.
pub struct StartText {
    pub profile: int,
    pub key: bool,
    pub show: bool,
    pub resilient: bool,
}

/// Where the flag for showing an existing frame stands: behind marker and profile, and
/// a reserved bit in profile 3.
pub open spec fn kind_flags(profile: int) -> int {
    if profile == 3 {
        5
    } else {
        4
    }
}

/// The start is written: marker, profile with its low bit first, and the flags.
pub open spec fn start_written(d: Seq<u8>, x: StartText) -> bool {
    let q = kind_flags(x.profile);
    &&& 0 <= x.profile <= 3
    &&& field(d, 0, 2, 2)
    &&& flag(d, 2, x.profile % 2 == 1)
    &&& flag(d, 3, x.profile >= 2)
    &&& flag(d, q, false)
    &&& flag(d, q + 1, !x.key)
    &&& flag(d, q + 2, x.show)
    &&& flag(d, q + 3, x.resilient)
}

/// The sample format is written from `p` to `end`: the bit depth in profiles 2 and 3,
/// the color space, and, but for RGB, the range and in odd profiles the subsampling.
pub open spec fn format_written(
    d: Seq<u8>,
    p: int,
    profile: int,
    c: ColorConfig,
    end: int,
) -> bool {
    let q = if profile >= 2 {
        p + 1
    } else {
        p
    };
    &&& profile >= 2 ==> (c.bit_depth == 10 || c.bit_depth == 12) && flag(d, p, c.bit_depth == 12)
    &&& profile < 2 ==> c.bit_depth == 8
    &&& field(d, q, 3, c.color_space as int)
    &&& if c.color_space == 7 {
        &&& profile % 2 == 1
        &&& c.color_range && c.subsampling_x == 0 && c.subsampling_y == 0
        &&& end == q + 4
    } else {
        &&& flag(d, q + 3, c.color_range)
        &&& if profile % 2 == 1 {
            &&& c.subsampling_x <= 1 && c.subsampling_y <= 1
            &&& flag(d, q + 4, c.subsampling_x == 1)
            &&& flag(d, q + 5, c.subsampling_y == 1)
            &&& end == q + 7
        } else {
            c.subsampling_x == 1 && c.subsampling_y == 1 && end == q + 4
        }
    }
}

/// The sample format is read back.
pub proof fn lemma_format_read_back(d: Seq<u8>, p: int, profile: u8, c: ColorConfig, end: int)
    requires
        profile <= 3,
        format_written(d, p, profile as int, c, end),
    ensures
        color_config_at(d, p, profile) == c,
        color_config_end(d, p, profile) == end,
        super::color_config_ok(d, p, profile),
{
    assert(profile == 0 || profile == 1 || profile == 2 || profile == 3);
}

/// A width and a height are written at `p`, each less 1 in 16 bits.
pub open spec fn size_written(d: Seq<u8>, p: int, size: (u32, u32)) -> bool {
    &&& 1 <= size.0 <= 0x1_0000
    &&& 1 <= size.1 <= 0x1_0000
    &&& field(d, p, 16, size.0 - 1)
    &&& field(d, p + 16, 16, size.1 - 1)
}

/// The size to show is written from `p` to `end`, unless it is that of the frame.
pub open spec fn render_written(d: Seq<u8>, p: int, size: Option<(u32, u32)>, end: int) -> bool {
    &&& flag(d, p, size is Some)
    &&& match size {
        None => end == p + 1,
        Some(r) => size_written(d, p + 1, r) && end == p + 33,
    }
}

/// The sync code is written at `p`.
pub open spec fn sync_written(d: Seq<u8>, p: int) -> bool {
    field(d, p, 8, 0x49) && field(d, p + 8, 8, 0x83) && field(d, p + 16, 8, 0x42)
}

/// What the start of a header says is read back.
pub proof fn lemma_start_read_back(
    d: Seq<u8>,
    x: StartText,
    prev: PersistentState,
    h: NewFrameHeader,
)
    requires
        start_written(d, x),
        header_at(d, prev, h),
    ensures
        h.profile == x.profile,
        h.frame_type == FrameType::KeyFrame <==> x.key,
        h.show_frame == x.show,
        h.error_resilient_mode == x.resilient,
        super::marker_ok(d),
        !super::shows_existing(d),
        super::kind_pos(d) == kind_flags(x.profile) + 4,
        x.key ==> h.frame_is_intra && !h.intra_only,
{
    lemma_profile(d, x);
}

proof fn lemma_profile(d: Seq<u8>, x: StartText)
    requires
        start_written(d, x),
    ensures
        super::profile_of(d) == x.profile,
        super::show_existing_pos(d) == kind_flags(x.profile),
{
    assert(x.profile == 0 || x.profile == 1 || x.profile == 2 || x.profile == 3);
}

/// A key frame's header goes on with the sync code, the format and the sizes. It
/// refreshes every reference slot and refers to none.
pub proof fn lemma_key_read_back(
    d: Seq<u8>,
    x: StartText,
    c: ColorConfig,
    e1: int,
    size: (u32, u32),
    render: Option<(u32, u32)>,
    e2: int,
    prev: PersistentState,
    h: NewFrameHeader,
)
    requires
        start_written(d, x),
        x.key,
        sync_written(d, kind_flags(x.profile) + 4),
        format_written(d, kind_flags(x.profile) + 28, x.profile, c, e1),
        size_written(d, e1, size),
        render_written(d, e1 + 32, render, e2),
        header_at(d, prev, h),
    ensures
        h.frame_is_intra,
        !h.intra_only,
        h.reset_frame_context == 0,
        h.color_config == Some(c),
        (h.width, h.height) == size,
        (h.render_width, h.render_height) == match render {
            Some(r) => r,
            None => size,
        },
        h.refresh_frame_flags == 0xff,
        !h.allow_high_precision_mv,
        context_pos(d) == e2,
        super::sync_ok(d),
{
    lemma_profile(d, x);
    lemma_format_read_back(d, kind_flags(x.profile) + 28, x.profile as u8, c, e1);
}

/// Where the body of a header that is not a key frame's starts: behind the intra flag,
/// which only hidden frames have, and the reset code, which resilient ones lack.
pub open spec fn other_body(x: StartText) -> int {
    kind_flags(x.profile) + 4 + (if x.show {
        0int
    } else {
        1
    }) + (if x.resilient {
        0int
    } else {
        2
    })
}

/// The flag and the code in front of the body are written.
pub open spec fn kind_written(d: Seq<u8>, x: StartText, intra_only: bool, reset: int) -> bool {
    let q = kind_flags(x.profile) + 4;
    &&& !x.key
    &&& intra_only ==> !x.show
    &&& !x.show ==> flag(d, q, intra_only)
    &&& if x.resilient {
        reset == 0
    } else {
        field(
            d,
            if x.show {
                q
            } else {
                q + 1
            },
            2,
            reset,
        )
    }
}

/// An intra-only frame's header goes on with the sync code, in profiles above 0 the
/// format, the slots to refresh and the sizes. In profile 0 it has 8 bits and half the
/// chroma both ways.
pub proof fn lemma_intra_only_read_back(
    d: Seq<u8>,
    x: StartText,
    reset: int,
    c: ColorConfig,
    e1: int,
    refresh: int,
    size: (u32, u32),
    render: Option<(u32, u32)>,
    e2: int,
    prev: PersistentState,
    h: NewFrameHeader,
)
    requires
        start_written(d, x),
        kind_written(d, x, true, reset),
        sync_written(d, other_body(x)),
        x.profile > 0 ==> format_written(d, other_body(x) + 24, x.profile, c, e1),
        x.profile == 0 ==> e1 == other_body(x) + 24 && c.bit_depth == 8 && c.color_space == 1
            && !c.color_range && c.subsampling_x == 1 && c.subsampling_y == 1,
        field(d, e1, 8, refresh),
        size_written(d, e1 + 8, size),
        render_written(d, e1 + 40, render, e2),
        header_at(d, prev, h),
    ensures
        h.frame_is_intra,
        h.intra_only,
        h.reset_frame_context == reset,
        h.color_config == Some(c),
        h.refresh_frame_flags == refresh,
        (h.width, h.height) == size,
        (h.render_width, h.render_height) == match render {
            Some(r) => r,
            None => size,
        },
        !h.allow_high_precision_mv,
        context_pos(d) == e2,
{
    lemma_profile(d, x);
    assert(super::body_pos(d) == other_body(x));
    if x.profile > 0 {
        lemma_format_read_back(d, other_body(x) + 24, x.profile as u8, c, e1);
    }
}

/// What the header of an inter frame says: the slots to refresh, three references with
/// their sign biases, a size of its own or that of the first reference marked, and how
/// vectors are coded and filtered.
pub struct InterText {
    pub refresh: int,
    pub slots: Seq<int>,
    pub biases: Seq<bool>,
    /// Which reference has the size, if any.
    pub sized_as: Option<int>,
    pub size: (u32, u32),
    pub render: Option<(u32, u32)>,
    pub high_precision: bool,
    /// The code of the filter; blocks choose where there is none.
    pub filter: Option<int>,
}

/// The text of an inter frame is written from `p` to `end`.
pub open spec fn inter_written(
    d: Seq<u8>,
    p: int,
    x: InterText,
    prev: PersistentState,
    end: int,
) -> bool {
    let q = p + 20;
    let r = match x.sized_as {
        Some(k) => q + k + 1,
        None => q + 35,
    };
    let e = r + if x.render is Some {
        33int
    } else {
        1
    };
    &&& x.slots.len() == 3 && x.biases.len() == 3
    &&& field(d, p, 8, x.refresh)
    &&& field(d, p + 8, 3, x.slots[0]) && flag(d, p + 11, x.biases[0])
    &&& field(d, p + 12, 3, x.slots[1]) && flag(d, p + 15, x.biases[1])
    &&& field(d, p + 16, 3, x.slots[2]) && flag(d, p + 19, x.biases[2])
    &&& match x.sized_as {
        Some(k) => {
            &&& 0 <= k <= 2
            &&& k >= 1 ==> flag(d, q, false)
            &&& k >= 2 ==> flag(d, q + 1, false)
            &&& flag(d, q + k, true)
            &&& x.size == prev.ref_frame_sizes[x.slots[k]]
        },
        None => {
            &&& flag(d, q, false) && flag(d, q + 1, false) && flag(d, q + 2, false)
            &&& size_written(d, q + 3, x.size)
        },
    }
    &&& render_written(d, r, x.render, e)
    &&& flag(d, e, x.high_precision)
    &&& flag(d, e + 1, x.filter is None)
    &&& x.filter matches Some(v) ==> field(d, e + 2, 2, v)
    &&& end == if x.filter is None {
        e + 2
    } else {
        e + 4
    }
}

/// An inter frame's header is read back. Of the filter codes 0 is the smooth filter, 1
/// the regular, 2 the sharp and 3 the bilinear one.
#[verifier::spinoff_prover]
#[verifier::rlimit(40)]
pub proof fn lemma_inter_read_back(
    d: Seq<u8>,
    s: StartText,
    reset: int,
    x: InterText,
    end: int,
    prev: PersistentState,
    h: NewFrameHeader,
    i: int,
)
    requires
        start_written(d, s),
        kind_written(d, s, false, reset),
        inter_written(d, other_body(s), x, prev, end),
        header_at(d, prev, h),
        0 <= i < 3,
    ensures
        !h.frame_is_intra,
        !h.intra_only,
        h.reset_frame_context == reset,
        h.color_config is None,
        h.refresh_frame_flags == x.refresh,
        h.ref_frame_idx[i] == x.slots[i],
        h.ref_frame_sign_bias[i + 1] == x.biases[i],
        !h.ref_frame_sign_bias[0],
        (h.width, h.height) == x.size,
        (h.render_width, h.render_height) == match x.render {
            Some(r) => r,
            None => x.size,
        },
        h.allow_high_precision_mv == x.high_precision,
        x.filter is None ==> h.interpolation_filter == 4,
        x.filter == Some(0int) ==> h.interpolation_filter == 1,
        x.filter == Some(1int) ==> h.interpolation_filter == 0,
        x.filter == Some(2int) ==> h.interpolation_filter == 2,
        x.filter == Some(3int) ==> h.interpolation_filter == 3,
        context_pos(d) == end,
{
    lemma_profile(d, s);
    let p = other_body(s);
    assert(super::body_pos(d) == p);
    assert(!super::is_intra(d));
    lemma2_to64();
    lemma_bits_value_range(d, p + 8, 3);
    lemma_bits_value_range(d, p + 12, 3);
    lemma_bits_value_range(d, p + 16, 3);
    assert(super::ref_idx_of(d, 0) == x.slots[0]);
    assert(super::ref_idx_of(d, 1) == x.slots[1]);
    assert(super::ref_idx_of(d, 2) == x.slots[2]);
    assert(super::sign_bias_of(d, 1) == x.biases[0]);
    assert(super::sign_bias_of(d, 2) == x.biases[1]);
    assert(super::sign_bias_of(d, 3) == x.biases[2]);
    assert(i == 0 || i == 1 || i == 2);
    let a = h.ref_frame_idx[i];
    let b = h.ref_frame_sign_bias[i + 1];
    let b0 = h.ref_frame_sign_bias[0];
    assert(super::size_pos(d) == p + 20);
    assert(super::frame_size_of(d, prev) == x.size);
    assert(super::render_pos(d) == match x.sized_as {
        Some(k) => p + 20 + k + 1,
        None => p + 55,
    });
}

// ---------------------------------------------------------------------------
// The end.
// ---------------------------------------------------------------------------

/// Behind the sizes and filters of any header stand the context flags and index, the
/// loop filter, the quantization, the segmentation, the tiles and the size of the
/// second header, in this order.
pub struct EndText {
    /// Whether the context is refreshed, and whether without adaptation; resilient
    /// frames do not say.
    pub contexts: Option<(bool, bool)>,
    pub index: int,
    pub filter: FilterText,
    pub quantizer: int,
    pub quantizer_deltas: Seq<Option<int>>,
    pub segments: Option<SegmentText>,
    pub tile_columns: int,
    /// The doublings of tile rows, up to two.
    pub tile_rows: int,
    pub second_header: int,
}

/// The end of a header is written from `p` to `end`; `e1` to `e3` are where the loop
/// filter, the quantization and the segmentation end.
pub open spec fn end_written(
    d: Seq<u8>,
    p: int,
    x: EndText,
    sb: int,
    e1: int,
    e2: int,
    e3: int,
    end: int,
) -> bool {
    let c = if x.contexts is Some {
        p + 2
    } else {
        p
    };
    let least = super::min_log2_tile_cols(sb);
    let most = super::max_log2_tile_cols(sb);
    let t = e3 + x.tile_columns - least + if x.tile_columns < most {
        1int
    } else {
        0
    };
    &&& x.contexts matches Some((refresh, parallel)) ==> flag(d, p, refresh) && flag(
        d,
        p + 1,
        parallel,
    )
    &&& field(d, c, 2, x.index)
    &&& filter_written(d, c + 2, x.filter, e1)
    &&& quantization_written(d, e1, x.quantizer, x.quantizer_deltas, e2)
    &&& match x.segments {
        None => flag(d, e2, false) && e3 == e2 + 1,
        Some(s) => segments_written(d, e2, s, e3),
    }
    &&& least <= x.tile_columns <= most
    &&& forall|k: int| e3 <= k < e3 + x.tile_columns - least ==> #[trigger] bit_at(d, k) == 1
    &&& x.tile_columns < most ==> flag(d, e3 + x.tile_columns - least, false)
    &&& 0 <= x.tile_rows <= 2
    &&& flag(d, t, x.tile_rows > 0)
    &&& x.tile_rows > 0 ==> flag(d, t + 1, x.tile_rows == 2)
    &&& field(
        d,
        if x.tile_rows > 0 {
            t + 2
        } else {
            t + 1
        },
        16,
        x.second_header,
    )
    &&& end == (if x.tile_rows > 0 {
        t + 18
    } else {
        t + 17
    })
}

/// The end of a header is read back. A resilient frame refreshes no context and does
/// not adapt.
#[verifier::spinoff_prover]
#[verifier::rlimit(40)]
pub proof fn lemma_end_read_back(
    d: Seq<u8>,
    p: int,
    x: EndText,
    e1: int,
    e2: int,
    e3: int,
    end: int,
    prev: PersistentState,
    h: NewFrameHeader,
)
    requires
        header_at(d, prev, h),
        context_pos(d) == p,
        h.error_resilient_mode <==> x.contexts is None,
        end_written(
            d,
            p,
            x,
            (((h.width as int + 7) / 8) + 7) / 8,
            e1,
            e2,
            e3,
            end,
        ),
    ensures
        h.refresh_frame_context == match x.contexts {
            Some((refresh, parallel)) => refresh,
            None => false,
        },
        h.frame_parallel_decoding_mode == match x.contexts {
            Some((refresh, parallel)) => parallel,
            None => true,
        },
        h.frame_context_idx == x.index,
        h.loop_filter.level == x.filter.level,
        h.loop_filter.sharpness == x.filter.sharpness,
        h.quantization.base_q_idx == x.quantizer,
        h.segmentation.enabled == (x.segments is Some),
        h.tile_cols_log2 == x.tile_columns,
        h.tile_rows_log2 == x.tile_rows,
        h.header_size_in_bytes == x.second_header,
        header_size_pos(d, prev) + 16 == end,
        loop_filter_at(
            d,
            if x.contexts is Some {
                p + 4
            } else {
                p + 2
            },
            h.frame_is_intra || h.error_resilient_mode,
            prev.loop_filter_deltas,
            h.loop_filter,
        ),
        h.quantization == quantization_at(d, e1),
        segmentation_at(
            d,
            e2,
            h.frame_is_intra || h.error_resilient_mode,
            prev.segmentation,
            h.segmentation,
        ),
{
    let c = if x.contexts is Some {
        p + 2
    } else {
        p
    };
    let reset = h.frame_is_intra || h.error_resilient_mode;
    assert(super::context_idx_pos(d) == c);
    lemma_filter_read_back(
        d,
        c + 2,
        x.filter,
        e1,
        reset,
        prev.loop_filter_deltas,
        h.loop_filter,
        0,
        0,
    );
    assert(quantization_pos(d) == e1);
    lemma_quantization_read_back(d, e1, x.quantizer, x.quantizer_deltas, e2);
    assert(segmentation_pos(d) == e2);
    match x.segments {
        None => {
            lemma_segments_off(d, e2, reset, prev.segmentation, h.segmentation, 0, 0);
        },
        Some(s) => {
            lemma_segments_read_back(
                d,
                e2,
                s,
                e3,
                reset,
                prev.segmentation,
                h.segmentation,
                0,
                0,
                0,
                0,
            );
        },
    }
    assert(tile_pos(d) == e3);
    let sb = super::sb_cols_of(d, prev);
    assert(sb == (((h.width as int + 7) / 8) + 7) / 8);
    lemma_tile_columns_read_back(
        d,
        e3,
        super::min_log2_tile_cols(sb),
        super::max_log2_tile_cols(sb),
        x.tile_columns,
    );
}

/// A header is refused for a wrong marker, for a wrong sync code of an intra frame, and
/// for the color space RGB in an even profile, in this order.
pub proof fn lemma_header_refusals(d: Seq<u8>, x: StartText, space: int)
    ensures
        bits_value(d, 0, 2) != 2 ==> crate::decoder::header_refusal(d) == Some(
            HeaderError::InvalidFrameMarker,
        ),
        start_written(d, x) && x.key && !sync_written(d, kind_flags(x.profile) + 4)
            ==> crate::decoder::header_refusal(d) == Some(HeaderError::InvalidSyncCode),
        start_written(d, x) && x.key && sync_written(d, kind_flags(x.profile) + 4) && field(
            d,
            kind_flags(x.profile) + 28 + if x.profile >= 2 {
                1int
            } else {
                0
            },
            3,
            space,
        ) ==> crate::decoder::header_refusal(d) == if space == 7 && x.profile % 2 == 0 {
            Some(HeaderError::InvalidColorConfigForProfile)
        } else {
            None
        },
        start_written(d, x) && !x.key && x.show ==> crate::decoder::header_refusal(d) is None,
{
    if start_written(d, x) {
        lemma_profile(d, x);
        let q = kind_flags(x.profile);
        assert(super::show_existing_pos(d) == q);
    }
}

} // verus!
