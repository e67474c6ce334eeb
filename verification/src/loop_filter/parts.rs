//! The parts of the loop filter in terms of levels, deltas and samples.

use vstd::arithmetic::power2::{lemma2_to64, lemma_pow2_unfold, pow2};
use vstd::prelude::*;
use crate::common::spec_clip3;
use crate::header::{LoopFilterParams, SegmentationParams, SEG_LVL_ALT_L};
use crate::prob_tables::{TX_16X16, TX_4X4, TX_8X8};
use super::{
    delta_scale, depth_scale, edge_filtered, filter_level, filter_wanted, flat, high_variance,
    levels_ok, strengths_of, tap, taps_in, wide_value, wide_written, window_sum, LvlLookup,
};

verus! {

// ---------------------------------------------------------------------------
// Levels.
// ---------------------------------------------------------------------------

/// `v` limited to the levels that there are.
pub open spec fn as_level(v: int) -> int {
    if v < 0 {
        0
    } else if v > 63 {
        63
    } else {
        v
    }
}

/// `base` is the level of a segment: that of the frame, or the segment's own, or
/// the two added up.
pub open spec fn level_of_segment(
    lf: LoopFilterParams,
    seg: SegmentationParams,
    s: int,
    base: int,
) -> bool {
    let own = seg.enabled && seg.feature_enabled[s][1];
    &&& !own ==> base == lf.level
    &&& own && seg.abs_or_delta_update ==> base == as_level(seg.feature_data[s][1] as int)
    &&& own && !seg.abs_or_delta_update ==> base == as_level(seg.feature_data[s][1] + lf.level)
}

proof fn lemma_delta_scale(lf: LoopFilterParams)
    requires
        lf.level <= 63,
    ensures
        delta_scale(lf) == if lf.level < 32 {
            1int
        } else {
            2
        },
{
    lemma2_to64();
    if lf.level < 32 {
        assert(lf.level / 32 == 0);
    } else {
        assert(lf.level / 32 == 1);
    }
}

proof fn lemma_scaled(delta: int, scale: int)
    ensures
        scale == 1 ==> delta * scale == delta,
        scale == 2 ==> delta * scale == 2 * delta,
{
}

/// Without deltas every level is that of its segment. With them, the level of an
/// inter block is that of its segment plus the deltas of its reference and of its
/// mode class, and that of an intra block the segment's plus the first delta,
/// limited to 0 to 63; deltas count twice from the frame level 32 on.
pub proof fn lemma_levels(
    t: LvlLookup,
    lf: LoopFilterParams,
    seg: SegmentationParams,
    s: int,
    base: int,
    r: int,
    m: int,
)
    requires
        levels_ok(t, lf, seg),
        lf.level <= 63,
        0 <= s < 8,
        1 <= r < 4,
        0 <= m < 2,
        level_of_segment(lf, seg, s, base),
    ensures
        !lf.delta_enabled ==> t[s][r][m] == base && t[s][0][0] == base,
        lf.delta_enabled && lf.level < 32 ==> {
            &&& t[s][r][m] == as_level(base + lf.ref_deltas[r] + lf.mode_deltas[m])
            &&& t[s][0][0] == as_level(base + lf.ref_deltas[0])
        },
        lf.delta_enabled && lf.level >= 32 ==> {
            &&& t[s][r][m] == as_level(base + 2 * (lf.ref_deltas[r] + lf.mode_deltas[m]))
            &&& t[s][0][0] == as_level(base + 2 * lf.ref_deltas[0])
        },
{
    lemma2_to64();
    assert(t[s][r][m] == filter_level(lf, seg, s, r, m));
    assert(t[s][0][0] == filter_level(lf, seg, s, 0, 0));
    assert(SEG_LVL_ALT_L == 1);
    lemma_delta_scale(lf);
    let scale = delta_scale(lf);
    lemma_scaled(lf.ref_deltas[r] as int, scale);
    lemma_scaled(lf.ref_deltas[0] as int, scale);
    lemma_scaled(lf.mode_deltas[m] as int, scale);
}

/// Greater deltas never give a lower level, and a greater level of the frame
/// never does either while deltas count the same.
pub proof fn lemma_levels_grow(
    t: LvlLookup,
    lf: LoopFilterParams,
    u: LvlLookup,
    lg: LoopFilterParams,
    seg: SegmentationParams,
    s: int,
    r: int,
    m: int,
)
    requires
        levels_ok(t, lf, seg),
        levels_ok(u, lg, seg),
        lf.delta_enabled == lg.delta_enabled,
        lf.level <= lg.level <= 63,
        lf.level < 32 <==> lg.level < 32,
        0 <= s < 8,
        0 <= r < 4,
        0 <= m < 2,
        lf.ref_deltas[r] <= lg.ref_deltas[r],
        lf.mode_deltas[m] <= lg.mode_deltas[m],
    ensures
        t[s][r][m] <= u[s][r][m],
{
    lemma2_to64();
    assert(t[s][r][m] == filter_level(lf, seg, s, r, m));
    assert(u[s][r][m] == filter_level(lg, seg, s, r, m));
    lemma_delta_scale(lf);
    lemma_delta_scale(lg);
    let scale = delta_scale(lf);
    lemma_scaled(lf.ref_deltas[r] as int, scale);
    lemma_scaled(lf.mode_deltas[m] as int, scale);
    lemma_scaled(lg.ref_deltas[r] as int, scale);
    lemma_scaled(lg.mode_deltas[m] as int, scale);
}

// ---------------------------------------------------------------------------
// Strengths.
// ---------------------------------------------------------------------------

/// The smoothness limit is the level, halved from sharpness 1 on and quartered
/// from 5 on, but at least 1 and with sharpness at most 9 less the sharpness. The
/// limit across the edge is the smoothness limit and twice the level raised by 2;
/// the threshold is a sixteenth of the level. Each doubles with every bit of
/// depth beyond 8.
pub proof fn lemma_strengths(lvl: int, sharpness: u8)
    requires
        0 <= lvl <= 63,
        sharpness <= 7,
    ensures
        ({
            let (limit, across, threshold) = strengths_of(lvl, sharpness, 8);
            &&& sharpness == 0 ==> limit == if lvl == 0 {
                1
            } else {
                lvl
            }
            &&& 1 <= sharpness <= 4 ==> {
                &&& 1 <= limit <= 9 - sharpness
                &&& 2 <= lvl && lvl < 2 * (10 - sharpness) ==> 2 * limit <= lvl <= 2 * limit + 1
                &&& lvl < 2 ==> limit == 1
                &&& lvl >= 2 * (9 - sharpness) ==> limit == 9 - sharpness
            }
            &&& sharpness >= 5 ==> {
                &&& 1 <= limit <= 9 - sharpness
                &&& 4 <= lvl && lvl < 4 * (10 - sharpness) ==> 4 * limit <= lvl <= 4 * limit + 3
                &&& lvl < 4 ==> limit == 1
                &&& lvl >= 4 * (9 - sharpness) ==> limit == 9 - sharpness
            }
            &&& across == limit + 2 * lvl + 4
            &&& 16 * threshold <= lvl < 16 * threshold + 16
        }),
        forall|bit_depth: int|
            8 <= bit_depth < 16 ==> {
                let (a, b, c) = #[trigger] strengths_of(lvl, sharpness, bit_depth);
                strengths_of(lvl, sharpness, bit_depth + 1) == (2 * a, 2 * b, 2 * c)
            },
{
    lemma2_to64();
    assert(depth_scale(8) == 1);
    let limit = super::limit_of(lvl, sharpness);
    assert(limit * 1 == limit && (2 * (lvl + 2) + limit) * 1 == 2 * (lvl + 2) + limit);
    assert((lvl / 16) * 1 == lvl / 16);
    assert(strengths_of(lvl, sharpness, 8) == (limit, 2 * (lvl + 2) + limit, lvl / 16));
    assert forall|bit_depth: int| 8 <= bit_depth < 16 implies {
        let (a, b, c) = #[trigger] strengths_of(lvl, sharpness, bit_depth);
        strengths_of(lvl, sharpness, bit_depth + 1) == (2 * a, 2 * b, 2 * c)
    } by {
        lemma_pow2_unfold((bit_depth + 1 - 8) as nat);
        let limit = super::limit_of(lvl, sharpness);
        let d = depth_scale(bit_depth);
        assert(depth_scale(bit_depth + 1) == 2 * d);
        let across = 2 * (lvl + 2) + limit;
        let threshold = lvl / 16;
        assert(limit * (2 * d) == 2 * (limit * d)) by (nonlinear_arith);
        assert(across * (2 * d) == 2 * (across * d)) by (nonlinear_arith);
        assert(threshold * (2 * d) == 2 * (threshold * d)) by (nonlinear_arith);
    }
}

// ---------------------------------------------------------------------------
// Filtering at a position.
// ---------------------------------------------------------------------------

/// A run of samples across an edge: the `k`-th after it for `k >= 0`, the
/// `-1 - k`-th before it for `k < 0`.
pub open spec fn run(s: Seq<u16>, base: int, stride: int) -> spec_fn(int) -> int {
    |k: int| s[base + stride * k] as int
}

/// The size of a step.
pub open spec fn step(a: int, b: int) -> int {
    if a < b {
        b - a
    } else {
        a - b
    }
}

/// No step between neighbours on either side is beyond `limit`, and the step
/// across the edge is not too large.
pub open spec fn smooth(t: spec_fn(int) -> int, limit: int, across: int) -> bool {
    &&& step(t(-4), t(-3)) <= limit
    &&& step(t(-3), t(-2)) <= limit
    &&& step(t(-2), t(-1)) <= limit
    &&& step(t(0), t(1)) <= limit
    &&& step(t(1), t(2)) <= limit
    &&& step(t(2), t(3)) <= limit
    &&& 2 * step(t(-1), t(0)) + step(t(-2), t(1)) / 2 <= across
}

/// Three samples on each side hardly differ from the one at the edge.
pub open spec fn level_near(t: spec_fn(int) -> int, d: int) -> bool {
    &&& step(t(-2), t(-1)) <= d && step(t(-3), t(-1)) <= d && step(t(-4), t(-1)) <= d
    &&& step(t(1), t(0)) <= d && step(t(2), t(0)) <= d && step(t(3), t(0)) <= d
}

/// The four samples further out hardly differ from it either.
pub open spec fn level_far(t: spec_fn(int) -> int, d: int) -> bool {
    &&& step(t(-5), t(-1)) <= d && step(t(-6), t(-1)) <= d && step(t(-7), t(-1)) <= d && step(
        t(-8),
        t(-1),
    ) <= d
    &&& step(t(4), t(0)) <= d && step(t(5), t(0)) <= d && step(t(6), t(0)) <= d && step(
        t(7),
        t(0),
    ) <= d
}

proof fn lemma_conditions(
    s: Seq<u16>,
    base: int,
    stride: int,
    limit: int,
    across: int,
    threshold: int,
    d: int,
)
    ensures
        ({
            let t = run(s, base, stride);
            &&& filter_wanted(s, base, stride, limit, across) == smooth(t, limit, across)
            &&& flat(s, base, stride, 1, 3, d) == level_near(t, d)
            &&& flat(s, base, stride, 4, 7, d) == level_far(t, d)
            &&& high_variance(s, base, stride, threshold) == (step(t(-2), t(-1)) > threshold
                || step(t(1), t(0)) > threshold)
        }),
{
    let t = run(s, base, stride);
    assert forall|k: int| #[trigger] tap(s, base, stride, k) == t(k) by {}
    if flat(s, base, stride, 1, 3, d) {
        assert(tap(s, base, stride, 1) == t(1) && tap(s, base, stride, 2) == t(2) && tap(
            s,
            base,
            stride,
            3,
        ) == t(3));
    }
    if level_near(t, d) {
        assert forall|k: int| 1 <= k <= 3 implies super::close(
            #[trigger] tap(s, base, stride, k),
            tap(s, base, stride, 0),
            d,
        ) && super::close(tap(s, base, stride, -1 - k), tap(s, base, stride, -1), d) by {
            assert(k == 1 || k == 2 || k == 3);
        }
    }
    if flat(s, base, stride, 4, 7, d) {
        assert(tap(s, base, stride, 4) == t(4) && tap(s, base, stride, 5) == t(5) && tap(
            s,
            base,
            stride,
            6,
        ) == t(6) && tap(s, base, stride, 7) == t(7));
    }
    if level_far(t, d) {
        assert forall|k: int| 4 <= k <= 7 implies super::close(
            #[trigger] tap(s, base, stride, k),
            tap(s, base, stride, 0),
            d,
        ) && super::close(tap(s, base, stride, -1 - k), tap(s, base, stride, -1), d) by {
            assert(k == 4 || k == 5 || k == 6 || k == 7);
        }
    }
}

/// The samples of a run are in the buffer and fit the bit depth.
pub open spec fn run_ok(
    s: Seq<u16>,
    base: int,
    stride: int,
    lo: int,
    hi: int,
    bit_depth: int,
) -> bool {
    &&& 1 <= stride
    &&& taps_in(s, base, stride, lo, hi)
    &&& forall|i: int| 0 <= i < s.len() ==> #[trigger] s[i] < pow2(bit_depth as nat)
}

/// A run that is not smooth stays as it is.
pub proof fn lemma_rough_runs_stay(
    s: Seq<u16>,
    base: int,
    stride: int,
    strengths: (int, int, int),
    filter_size: u8,
    bit_depth: int,
)
    requires
        !smooth(run(s, base, stride), strengths.0, strengths.1),
    ensures
        edge_filtered(s, base, stride, strengths, filter_size, bit_depth) == s,
{
    lemma_conditions(s, base, stride, strengths.0, strengths.1, strengths.2, 0);
}

/// `v` limited to the range of signed samples.
pub open spec fn signed_limit(v: int, bit_depth: int) -> int {
    let half = pow2((bit_depth - 1) as nat) as int;
    if v < -half {
        -half
    } else if v > half - 1 {
        half - 1
    } else {
        v
    }
}

/// A sample limited to the range of the bit depth.
pub open spec fn sample_limit(v: int, bit_depth: int) -> int {
    if v < 0 {
        0
    } else if v > pow2(bit_depth as nat) - 1 {
        pow2(bit_depth as nat) - 1
    } else {
        v
    }
}

proof fn lemma_distinct_taps(base: int, stride: int, a: int, b: int)
    requires
        1 <= stride,
        a != b,
    ensures
        base + stride * a != base + stride * b,
{
    assert(stride * a != stride * b) by (nonlinear_arith)
        requires
            1 <= stride,
            a != b,
    ;
}

/// A smooth run is filtered narrowly where the filter is of the smallest size or
/// the samples are not level. The two samples at the edge move towards each other
/// by about three eighths of the step between them, with a high variance less by
/// an eighth of the step between the next two. Without a high variance those move
/// too, by half as much. Nothing else changes.
#[verifier::spinoff_prover]
#[verifier::rlimit(60)]
pub proof fn lemma_narrow_filter(
    s: Seq<u16>,
    base: int,
    stride: int,
    strengths: (int, int, int),
    filter_size: u8,
    bit_depth: int,
)
    requires
        8 <= bit_depth <= 16,
        run_ok(s, base, stride, -4, 3, bit_depth),
        smooth(run(s, base, stride), strengths.0, strengths.1),
        filter_size == TX_4X4 || !level_near(
            run(s, base, stride),
            pow2((bit_depth - 8) as nat) as int,
        ),
    ensures
        ({
            let t = run(s, base, stride);
            let r = edge_filtered(s, base, stride, strengths, filter_size, bit_depth);
            let after = run(r, base, stride);
            let busy = step(t(-2), t(-1)) > strengths.2 || step(t(1), t(0)) > strengths.2;
            let outer = if busy {
                signed_limit(t(-2) - t(1), bit_depth)
            } else {
                0
            };
            let f = signed_limit(3 * (t(0) - t(-1)) + outer, bit_depth);
            let up = signed_limit(f + 4, bit_depth) / 8;
            let down = signed_limit(f + 3, bit_depth) / 8;
            &&& r.len() == s.len()
            &&& after(0) == sample_limit(t(0) - up, bit_depth)
            &&& after(-1) == sample_limit(t(-1) + down, bit_depth)
            &&& busy ==> after(1) == t(1) && after(-2) == t(-2)
            &&& !busy ==> {
                &&& after(1) == sample_limit(t(1) - (up + 1) / 2, bit_depth)
                &&& after(-2) == sample_limit(t(-2) + (up + 1) / 2, bit_depth)
            }
            &&& forall|k: int|
                0 <= k < s.len() && k != base && k != base - stride && k != base + stride && k
                    != base - 2 * stride ==> #[trigger] r[k] == s[k]
        }),
{
    let t = run(s, base, stride);
    let d = depth_scale(bit_depth);
    lemma_conditions(s, base, stride, strengths.0, strengths.1, strengths.2, d);
    lemma2_to64();
    lemma_pow2_unfold(bit_depth as nat);
    lemma_halves(bit_depth);
    assert(128 * d == pow2((bit_depth - 1) as nat));
    if bit_depth < 16 {
        vstd::arithmetic::power2::lemma_pow2_strictly_increases(bit_depth as nat, 16);
    }
    assert(0 <= base + stride * 0 < s.len());
    assert(0 <= base + stride * -1 < s.len());
    assert(0 <= base + stride * 1 < s.len());
    assert(0 <= base + stride * -2 < s.len());
    assert(stride * -1 == -stride && stride * -2 == -2 * stride && stride * 1 == stride && stride * 0
        == 0) by (nonlinear_arith);
    assert(tap(s, base, stride, 0) == t(0) && tap(s, base, stride, -1) == t(-1));
    assert(tap(s, base, stride, 1) == t(1) && tap(s, base, stride, -2) == t(-2));
}

proof fn lemma_halves(bit_depth: int)
    requires
        8 <= bit_depth <= 16,
    ensures
        128 * depth_scale(bit_depth) == pow2((bit_depth - 1) as nat),
        256 * depth_scale(bit_depth) == pow2(bit_depth as nat),
{
    lemma2_to64();
    let k = bit_depth - 8;
    assert(k == 0 || k == 1 || k == 2 || k == 3 || k == 4 || k == 5 || k == 6 || k == 7 || k == 8);
}

/// The narrow filter keeps the sum of the two samples at the edge, or loses one,
/// and does not widen the step between them, where no limit is hit.
pub proof fn lemma_narrow_filter_evens_out(
    s: Seq<u16>,
    base: int,
    stride: int,
    strengths: (int, int, int),
    filter_size: u8,
    bit_depth: int,
)
    requires
        8 <= bit_depth <= 16,
        run_ok(s, base, stride, -4, 3, bit_depth),
        smooth(run(s, base, stride), strengths.0, strengths.1),
        filter_size == TX_4X4 || !level_near(
            run(s, base, stride),
            pow2((bit_depth - 8) as nat) as int,
        ),
        step(s[base - 2 * stride] as int, s[base - stride] as int) <= strengths.2,
        step(s[base + stride] as int, s[base] as int) <= strengths.2,
        6 * step(s[base] as int, s[base - stride] as int) + 10 < pow2(bit_depth as nat),
    ensures
        ({
            let r = edge_filtered(s, base, stride, strengths, filter_size, bit_depth);
            let sum = s[base] + s[base - stride];
            &&& r[base] + r[base - stride] == sum || r[base] + r[base - stride] == sum - 1
            &&& step(r[base] as int, r[base - stride] as int) <= step(
                s[base] as int,
                s[base - stride] as int,
            )
        }),
{
    lemma_narrow_filter(s, base, stride, strengths, filter_size, bit_depth);
    lemma2_to64();
    lemma_pow2_unfold(bit_depth as nat);
    let t = run(s, base, stride);
    assert(stride * -1 == -stride && stride * -2 == -2 * stride && stride * 1 == stride && stride * 0
        == 0) by (nonlinear_arith);
    assert(0 <= base + stride * 0 < s.len());
    assert(0 <= base + stride * -1 < s.len());
    assert(t(0) == s[base] && t(-1) == s[base - stride]);
    assert(t(1) == s[base + stride] && t(-2) == s[base - 2 * stride]);
}

/// What the wide filter writes, sample by sample.
proof fn lemma_written(s: Seq<u16>, base: int, stride: int, log2_size: nat, count: nat)
    requires
        1 <= stride,
        log2_size == 3 || log2_size == 4,
        count <= 2 * (pow2((log2_size - 1) as nat) - 1),
        taps_in(
            s,
            base,
            stride,
            -(pow2((log2_size - 1) as nat) - 1),
            pow2((log2_size - 1) as nat) - 1,
        ),
    ensures
        ({
            let n = pow2((log2_size - 1) as nat) - 1;
            let r = wide_written(s, base, stride, log2_size, count);
            &&& r.len() == s.len()
            &&& forall|i: int|
                -n <= i < count - n ==> r[#[trigger] (base + stride * i)] == wide_value(
                    s,
                    base,
                    stride,
                    log2_size,
                    i,
                ) as u16
            &&& forall|k: int|
                0 <= k < s.len() && (forall|i: int|
                    -n <= i < count - n ==> k != #[trigger] (base + stride * i)) ==> #[trigger] r[k]
                    == s[k]
        }),
    decreases count,
{
    lemma2_to64();
    let n = pow2((log2_size - 1) as nat) - 1;
    if count > 0 {
        lemma_written(s, base, stride, log2_size, (count - 1) as nat);
        let last = count - 1 - n;
        let prev = wide_written(s, base, stride, log2_size, (count - 1) as nat);
        let r = wide_written(s, base, stride, log2_size, count);
        assert(0 <= base + stride * last < s.len());
        assert forall|i: int| -n <= i < count - n implies r[#[trigger] (base + stride * i)]
            == wide_value(s, base, stride, log2_size, i) as u16 by {
            assert(0 <= base + stride * i < s.len());
            if i != last {
                lemma_distinct_taps(base, stride, i, last);
            }
        }
    }
}

proof fn lemma_wide_sum(s: Seq<u16>, base: int, stride: int, i: int)
    ensures
        ({
            let t = run(s, base, stride);
            window_sum(s, base, stride, 3, i, 7) == t(spec_clip3(-4, 3, i - 3)) + t(spec_clip3(-4, 3, i - 2)) + t(spec_clip3(-4, 3, i - 1)) + t(spec_clip3(-4, 3, i + 0)) + t(spec_clip3(-4, 3, i + 1)) + t(spec_clip3(-4, 3, i + 2)) + t(spec_clip3(-4, 3, i + 3))
        }),
{
    reveal_with_fuel(window_sum, 8);
}

proof fn lemma_wide_value_m3(s: Seq<u16>, base: int, stride: int)
    ensures
        ({
            let t = run(s, base, stride);
            wide_value(s, base, stride, 3, -3) == (3 * t(-4) + 2 * t(-3) + t(-2) + t(-1) + t(0) + 4) / 8
        }),
{
    lemma2_to64();
    lemma_wide_sum(s, base, stride, -3);
}

proof fn lemma_wide_value_m2(s: Seq<u16>, base: int, stride: int)
    ensures
        ({
            let t = run(s, base, stride);
            wide_value(s, base, stride, 3, -2) == (2 * t(-4) + t(-3) + 2 * t(-2) + t(-1) + t(0) + t(1) + 4) / 8
        }),
{
    lemma2_to64();
    lemma_wide_sum(s, base, stride, -2);
}

proof fn lemma_wide_value_m1(s: Seq<u16>, base: int, stride: int)
    ensures
        ({
            let t = run(s, base, stride);
            wide_value(s, base, stride, 3, -1) == (t(-4) + t(-3) + t(-2) + 2 * t(-1) + t(0) + t(1) + t(2) + 4) / 8
        }),
{
    lemma2_to64();
    lemma_wide_sum(s, base, stride, -1);
}

proof fn lemma_wide_value_0(s: Seq<u16>, base: int, stride: int)
    ensures
        ({
            let t = run(s, base, stride);
            wide_value(s, base, stride, 3, 0) == (t(-3) + t(-2) + t(-1) + 2 * t(0) + t(1) + t(2) + t(3) + 4) / 8
        }),
{
    lemma2_to64();
    lemma_wide_sum(s, base, stride, 0);
}

proof fn lemma_wide_value_1(s: Seq<u16>, base: int, stride: int)
    ensures
        ({
            let t = run(s, base, stride);
            wide_value(s, base, stride, 3, 1) == (t(-2) + t(-1) + t(0) + 2 * t(1) + t(2) + 2 * t(3) + 4) / 8
        }),
{
    lemma2_to64();
    lemma_wide_sum(s, base, stride, 1);
}

proof fn lemma_wide_value_2(s: Seq<u16>, base: int, stride: int)
    ensures
        ({
            let t = run(s, base, stride);
            wide_value(s, base, stride, 3, 2) == (t(-1) + t(0) + t(1) + 2 * t(2) + 3 * t(3) + 4) / 8
        }),
{
    lemma2_to64();
    lemma_wide_sum(s, base, stride, 2);
}

proof fn lemma_widest_sum(s: Seq<u16>, base: int, stride: int, i: int)
    ensures
        ({
            let t = run(s, base, stride);
            window_sum(s, base, stride, 7, i, 15) == t(spec_clip3(-8, 7, i - 7)) + t(spec_clip3(-8, 7, i - 6)) + t(spec_clip3(-8, 7, i - 5)) + t(spec_clip3(-8, 7, i - 4)) + t(spec_clip3(-8, 7, i - 3)) + t(spec_clip3(-8, 7, i - 2)) + t(spec_clip3(-8, 7, i - 1)) + t(spec_clip3(-8, 7, i + 0)) + t(spec_clip3(-8, 7, i + 1)) + t(spec_clip3(-8, 7, i + 2)) + t(spec_clip3(-8, 7, i + 3)) + t(spec_clip3(-8, 7, i + 4)) + t(spec_clip3(-8, 7, i + 5)) + t(spec_clip3(-8, 7, i + 6)) + t(spec_clip3(-8, 7, i + 7))
        }),
{
    reveal_with_fuel(window_sum, 16);
}

proof fn lemma_widest_value_m7(s: Seq<u16>, base: int, stride: int)
    ensures
        ({
            let t = run(s, base, stride);
            &&& wide_value(s, base, stride, 4, -7) == (7 * t(-8) + 2 * t(-7) + t(-6) + t(-5) + t(-4) + t(-3) + t(-2) + t(-1) + t(0) + 8) / 16
            &&& 0 <= wide_value(s, base, stride, 4, -7) <= 0xffff
        }),
{
    lemma2_to64();
    lemma_widest_sum(s, base, stride, -7);
}

proof fn lemma_widest_value_m6(s: Seq<u16>, base: int, stride: int)
    ensures
        ({
            let t = run(s, base, stride);
            &&& wide_value(s, base, stride, 4, -6) == (6 * t(-8) + t(-7) + 2 * t(-6) + t(-5) + t(-4) + t(-3) + t(-2) + t(-1) + t(0) + t(1) + 8) / 16
            &&& 0 <= wide_value(s, base, stride, 4, -6) <= 0xffff
        }),
{
    lemma2_to64();
    lemma_widest_sum(s, base, stride, -6);
}

proof fn lemma_widest_value_m5(s: Seq<u16>, base: int, stride: int)
    ensures
        ({
            let t = run(s, base, stride);
            &&& wide_value(s, base, stride, 4, -5) == (5 * t(-8) + t(-7) + t(-6) + 2 * t(-5) + t(-4) + t(-3) + t(-2) + t(-1) + t(0) + t(1) + t(2) + 8) / 16
            &&& 0 <= wide_value(s, base, stride, 4, -5) <= 0xffff
        }),
{
    lemma2_to64();
    lemma_widest_sum(s, base, stride, -5);
}

proof fn lemma_widest_value_m4(s: Seq<u16>, base: int, stride: int)
    ensures
        ({
            let t = run(s, base, stride);
            &&& wide_value(s, base, stride, 4, -4) == (4 * t(-8) + t(-7) + t(-6) + t(-5) + 2 * t(-4) + t(-3) + t(-2) + t(-1) + t(0) + t(1) + t(2) + t(3) + 8) / 16
            &&& 0 <= wide_value(s, base, stride, 4, -4) <= 0xffff
        }),
{
    lemma2_to64();
    lemma_widest_sum(s, base, stride, -4);
}

proof fn lemma_widest_value_m3(s: Seq<u16>, base: int, stride: int)
    ensures
        ({
            let t = run(s, base, stride);
            &&& wide_value(s, base, stride, 4, -3) == (3 * t(-8) + t(-7) + t(-6) + t(-5) + t(-4) + 2 * t(-3) + t(-2) + t(-1) + t(0) + t(1) + t(2) + t(3) + t(4) + 8) / 16
            &&& 0 <= wide_value(s, base, stride, 4, -3) <= 0xffff
        }),
{
    lemma2_to64();
    lemma_widest_sum(s, base, stride, -3);
}

proof fn lemma_widest_value_m2(s: Seq<u16>, base: int, stride: int)
    ensures
        ({
            let t = run(s, base, stride);
            &&& wide_value(s, base, stride, 4, -2) == (2 * t(-8) + t(-7) + t(-6) + t(-5) + t(-4) + t(-3) + 2 * t(-2) + t(-1) + t(0) + t(1) + t(2) + t(3) + t(4) + t(5) + 8) / 16
            &&& 0 <= wide_value(s, base, stride, 4, -2) <= 0xffff
        }),
{
    lemma2_to64();
    lemma_widest_sum(s, base, stride, -2);
}

proof fn lemma_widest_value_m1(s: Seq<u16>, base: int, stride: int)
    ensures
        ({
            let t = run(s, base, stride);
            &&& wide_value(s, base, stride, 4, -1) == (t(-8) + t(-7) + t(-6) + t(-5) + t(-4) + t(-3) + t(-2) + 2 * t(-1) + t(0) + t(1) + t(2) + t(3) + t(4) + t(5) + t(6) + 8) / 16
            &&& 0 <= wide_value(s, base, stride, 4, -1) <= 0xffff
        }),
{
    lemma2_to64();
    lemma_widest_sum(s, base, stride, -1);
}

proof fn lemma_widest_value_0(s: Seq<u16>, base: int, stride: int)
    ensures
        ({
            let t = run(s, base, stride);
            &&& wide_value(s, base, stride, 4, 0) == (t(-7) + t(-6) + t(-5) + t(-4) + t(-3) + t(-2) + t(-1) + 2 * t(0) + t(1) + t(2) + t(3) + t(4) + t(5) + t(6) + t(7) + 8) / 16
            &&& 0 <= wide_value(s, base, stride, 4, 0) <= 0xffff
        }),
{
    lemma2_to64();
    lemma_widest_sum(s, base, stride, 0);
}

proof fn lemma_widest_value_1(s: Seq<u16>, base: int, stride: int)
    ensures
        ({
            let t = run(s, base, stride);
            &&& wide_value(s, base, stride, 4, 1) == (t(-6) + t(-5) + t(-4) + t(-3) + t(-2) + t(-1) + t(0) + 2 * t(1) + t(2) + t(3) + t(4) + t(5) + t(6) + 2 * t(7) + 8) / 16
            &&& 0 <= wide_value(s, base, stride, 4, 1) <= 0xffff
        }),
{
    lemma2_to64();
    lemma_widest_sum(s, base, stride, 1);
}

proof fn lemma_widest_value_2(s: Seq<u16>, base: int, stride: int)
    ensures
        ({
            let t = run(s, base, stride);
            &&& wide_value(s, base, stride, 4, 2) == (t(-5) + t(-4) + t(-3) + t(-2) + t(-1) + t(0) + t(1) + 2 * t(2) + t(3) + t(4) + t(5) + t(6) + 3 * t(7) + 8) / 16
            &&& 0 <= wide_value(s, base, stride, 4, 2) <= 0xffff
        }),
{
    lemma2_to64();
    lemma_widest_sum(s, base, stride, 2);
}

proof fn lemma_widest_value_3(s: Seq<u16>, base: int, stride: int)
    ensures
        ({
            let t = run(s, base, stride);
            &&& wide_value(s, base, stride, 4, 3) == (t(-4) + t(-3) + t(-2) + t(-1) + t(0) + t(1) + t(2) + 2 * t(3) + t(4) + t(5) + t(6) + 4 * t(7) + 8) / 16
            &&& 0 <= wide_value(s, base, stride, 4, 3) <= 0xffff
        }),
{
    lemma2_to64();
    lemma_widest_sum(s, base, stride, 3);
}

proof fn lemma_widest_value_4(s: Seq<u16>, base: int, stride: int)
    ensures
        ({
            let t = run(s, base, stride);
            &&& wide_value(s, base, stride, 4, 4) == (t(-3) + t(-2) + t(-1) + t(0) + t(1) + t(2) + t(3) + 2 * t(4) + t(5) + t(6) + 5 * t(7) + 8) / 16
            &&& 0 <= wide_value(s, base, stride, 4, 4) <= 0xffff
        }),
{
    lemma2_to64();
    lemma_widest_sum(s, base, stride, 4);
}

proof fn lemma_widest_value_5(s: Seq<u16>, base: int, stride: int)
    ensures
        ({
            let t = run(s, base, stride);
            &&& wide_value(s, base, stride, 4, 5) == (t(-2) + t(-1) + t(0) + t(1) + t(2) + t(3) + t(4) + 2 * t(5) + t(6) + 6 * t(7) + 8) / 16
            &&& 0 <= wide_value(s, base, stride, 4, 5) <= 0xffff
        }),
{
    lemma2_to64();
    lemma_widest_sum(s, base, stride, 5);
}

proof fn lemma_widest_value_6(s: Seq<u16>, base: int, stride: int)
    ensures
        ({
            let t = run(s, base, stride);
            &&& wide_value(s, base, stride, 4, 6) == (t(-1) + t(0) + t(1) + t(2) + t(3) + t(4) + t(5) + 2 * t(6) + 7 * t(7) + 8) / 16
            &&& 0 <= wide_value(s, base, stride, 4, 6) <= 0xffff
        }),
{
    lemma2_to64();
    lemma_widest_sum(s, base, stride, 6);
}

proof fn lemma_wide_choice(
    s: Seq<u16>,
    base: int,
    stride: int,
    strengths: (int, int, int),
    filter_size: u8,
    bit_depth: int,
)
    requires
        8 <= bit_depth <= 16,
        filter_size >= TX_8X8,
        smooth(run(s, base, stride), strengths.0, strengths.1),
        level_near(run(s, base, stride), pow2((bit_depth - 8) as nat) as int),
    ensures
        ({
            let far = level_far(run(s, base, stride), pow2((bit_depth - 8) as nat) as int);
            let r = edge_filtered(s, base, stride, strengths, filter_size, bit_depth);
            &&& filter_size == TX_8X8 || !far ==> r == wide_written(s, base, stride, 3, 6)
            &&& filter_size > TX_8X8 && far ==> r == wide_written(s, base, stride, 4, 14)
        }),
{
    lemma2_to64();
    lemma_conditions(
        s,
        base,
        stride,
        strengths.0,
        strengths.1,
        strengths.2,
        depth_scale(bit_depth),
    );
}

/// A smooth and level run is filtered widely where the filter is larger than the
/// smallest: each of the three samples on either side becomes the mean of the
/// seven around it, itself counted twice; what would lie beyond the four samples
/// on a side counts as the last of them.
#[verifier::spinoff_prover]
#[verifier::rlimit(60)]
pub proof fn lemma_wide_filter(
    s: Seq<u16>,
    base: int,
    stride: int,
    strengths: (int, int, int),
    filter_size: u8,
    bit_depth: int,
)
    requires
        8 <= bit_depth <= 16,
        run_ok(s, base, stride, -4, 3, bit_depth),
        smooth(run(s, base, stride), strengths.0, strengths.1),
        level_near(run(s, base, stride), pow2((bit_depth - 8) as nat) as int),
        filter_size == TX_8X8 || (filter_size > TX_8X8 && !level_far(
            run(s, base, stride),
            pow2((bit_depth - 8) as nat) as int,
        )),
    ensures
        ({
            let t = run(s, base, stride);
            let r = edge_filtered(s, base, stride, strengths, filter_size, bit_depth);
            let after = run(r, base, stride);
            &&& r.len() == s.len()
            &&& after(-3) == (3 * t(-4) + 2 * t(-3) + t(-2) + t(-1) + t(0) + 4) / 8
            &&& after(-2) == (2 * t(-4) + t(-3) + 2 * t(-2) + t(-1) + t(0) + t(1) + 4) / 8
            &&& after(-1) == (t(-4) + t(-3) + t(-2) + 2 * t(-1) + t(0) + t(1) + t(2) + 4) / 8
            &&& after(0) == (t(-3) + t(-2) + t(-1) + 2 * t(0) + t(1) + t(2) + t(3) + 4) / 8
            &&& after(1) == (t(-2) + t(-1) + t(0) + 2 * t(1) + t(2) + 2 * t(3) + 4) / 8
            &&& after(2) == (t(-1) + t(0) + t(1) + 2 * t(2) + 3 * t(3) + 4) / 8
            &&& forall|k: int|
                0 <= k < s.len() && (forall|i: int|
                    -3 <= i < 3 ==> k != #[trigger] (base + stride * i)) ==> #[trigger] r[k]
                    == s[k]
        }),
{
    lemma2_to64();
    lemma_wide_choice(s, base, stride, strengths, filter_size, bit_depth);
    lemma_written(s, base, stride, 3, 6);
    lemma_wide_value_m3(s, base, stride);
    assert(0 <= base + stride * -3 < s.len());
    lemma_wide_value_m2(s, base, stride);
    assert(0 <= base + stride * -2 < s.len());
    lemma_wide_value_m1(s, base, stride);
    assert(0 <= base + stride * -1 < s.len());
    lemma_wide_value_0(s, base, stride);
    assert(0 <= base + stride * 0 < s.len());
    lemma_wide_value_1(s, base, stride);
    assert(0 <= base + stride * 1 < s.len());
    lemma_wide_value_2(s, base, stride);
    assert(0 <= base + stride * 2 < s.len());
}

proof fn lemma_widest_written(s: Seq<u16>, base: int, stride: int)
    requires
        1 <= stride,
        taps_in(s, base, stride, -8, 7),
    ensures
        ({
            let r = wide_written(s, base, stride, 4, 14);
            let after = run(r, base, stride);
            &&& r.len() == s.len()
            &&& after(-7) == wide_value(s, base, stride, 4, -7) as u16
            &&& after(-6) == wide_value(s, base, stride, 4, -6) as u16
            &&& after(-5) == wide_value(s, base, stride, 4, -5) as u16
            &&& after(-4) == wide_value(s, base, stride, 4, -4) as u16
            &&& after(-3) == wide_value(s, base, stride, 4, -3) as u16
            &&& after(-2) == wide_value(s, base, stride, 4, -2) as u16
            &&& after(-1) == wide_value(s, base, stride, 4, -1) as u16
            &&& after(0) == wide_value(s, base, stride, 4, 0) as u16
            &&& after(1) == wide_value(s, base, stride, 4, 1) as u16
            &&& after(2) == wide_value(s, base, stride, 4, 2) as u16
            &&& after(3) == wide_value(s, base, stride, 4, 3) as u16
            &&& after(4) == wide_value(s, base, stride, 4, 4) as u16
            &&& after(5) == wide_value(s, base, stride, 4, 5) as u16
            &&& after(6) == wide_value(s, base, stride, 4, 6) as u16
            &&& forall|k: int|
                0 <= k < s.len() && (forall|i: int|
                    -7 <= i < 7 ==> k != #[trigger] (base + stride * i)) ==> #[trigger] r[k]
                    == s[k]
        }),
{
    lemma2_to64();
    lemma_written(s, base, stride, 4, 14);
    assert(0 <= base + stride * -7 < s.len());
    assert(0 <= base + stride * -6 < s.len());
    assert(0 <= base + stride * -5 < s.len());
    assert(0 <= base + stride * -4 < s.len());
    assert(0 <= base + stride * -3 < s.len());
    assert(0 <= base + stride * -2 < s.len());
    assert(0 <= base + stride * -1 < s.len());
    assert(0 <= base + stride * 0 < s.len());
    assert(0 <= base + stride * 1 < s.len());
    assert(0 <= base + stride * 2 < s.len());
    assert(0 <= base + stride * 3 < s.len());
    assert(0 <= base + stride * 4 < s.len());
    assert(0 <= base + stride * 5 < s.len());
    assert(0 <= base + stride * 6 < s.len());
}

/// A run that is level far out too is filtered more widely still where the filter
/// is of the largest size: each of the seven samples on either side becomes the
/// mean of the fifteen around it, itself counted twice.
#[verifier::spinoff_prover]
#[verifier::rlimit(60)]
pub proof fn lemma_widest_filter(
    s: Seq<u16>,
    base: int,
    stride: int,
    strengths: (int, int, int),
    filter_size: u8,
    bit_depth: int,
)
    requires
        8 <= bit_depth <= 16,
        run_ok(s, base, stride, -8, 7, bit_depth),
        smooth(run(s, base, stride), strengths.0, strengths.1),
        level_near(run(s, base, stride), pow2((bit_depth - 8) as nat) as int),
        filter_size >= TX_16X16,
        level_far(run(s, base, stride), pow2((bit_depth - 8) as nat) as int),
    ensures
        ({
            let t = run(s, base, stride);
            let r = edge_filtered(s, base, stride, strengths, filter_size, bit_depth);
            let after = run(r, base, stride);
            &&& r.len() == s.len()
            &&& after(-7) == (7 * t(-8) + 2 * t(-7) + t(-6) + t(-5) + t(-4) + t(-3) + t(-2) + t(-1) + t(0) + 8) / 16
            &&& after(-6) == (6 * t(-8) + t(-7) + 2 * t(-6) + t(-5) + t(-4) + t(-3) + t(-2) + t(-1) + t(0) + t(1) + 8) / 16
            &&& after(-5) == (5 * t(-8) + t(-7) + t(-6) + 2 * t(-5) + t(-4) + t(-3) + t(-2) + t(-1) + t(0) + t(1) + t(2) + 8) / 16
            &&& after(-4) == (4 * t(-8) + t(-7) + t(-6) + t(-5) + 2 * t(-4) + t(-3) + t(-2) + t(-1) + t(0) + t(1) + t(2) + t(3) + 8) / 16
            &&& after(-3) == (3 * t(-8) + t(-7) + t(-6) + t(-5) + t(-4) + 2 * t(-3) + t(-2) + t(-1) + t(0) + t(1) + t(2) + t(3) + t(4) + 8) / 16
            &&& after(-2) == (2 * t(-8) + t(-7) + t(-6) + t(-5) + t(-4) + t(-3) + 2 * t(-2) + t(-1) + t(0) + t(1) + t(2) + t(3) + t(4) + t(5) + 8) / 16
            &&& after(-1) == (t(-8) + t(-7) + t(-6) + t(-5) + t(-4) + t(-3) + t(-2) + 2 * t(-1) + t(0) + t(1) + t(2) + t(3) + t(4) + t(5) + t(6) + 8) / 16
            &&& after(0) == (t(-7) + t(-6) + t(-5) + t(-4) + t(-3) + t(-2) + t(-1) + 2 * t(0) + t(1) + t(2) + t(3) + t(4) + t(5) + t(6) + t(7) + 8) / 16
            &&& after(1) == (t(-6) + t(-5) + t(-4) + t(-3) + t(-2) + t(-1) + t(0) + 2 * t(1) + t(2) + t(3) + t(4) + t(5) + t(6) + 2 * t(7) + 8) / 16
            &&& after(2) == (t(-5) + t(-4) + t(-3) + t(-2) + t(-1) + t(0) + t(1) + 2 * t(2) + t(3) + t(4) + t(5) + t(6) + 3 * t(7) + 8) / 16
            &&& after(3) == (t(-4) + t(-3) + t(-2) + t(-1) + t(0) + t(1) + t(2) + 2 * t(3) + t(4) + t(5) + t(6) + 4 * t(7) + 8) / 16
            &&& after(4) == (t(-3) + t(-2) + t(-1) + t(0) + t(1) + t(2) + t(3) + 2 * t(4) + t(5) + t(6) + 5 * t(7) + 8) / 16
            &&& after(5) == (t(-2) + t(-1) + t(0) + t(1) + t(2) + t(3) + t(4) + 2 * t(5) + t(6) + 6 * t(7) + 8) / 16
            &&& after(6) == (t(-1) + t(0) + t(1) + t(2) + t(3) + t(4) + t(5) + 2 * t(6) + 7 * t(7) + 8) / 16
            &&& forall|k: int|
                0 <= k < s.len() && (forall|i: int|
                    -7 <= i < 7 ==> k != #[trigger] (base + stride * i)) ==> #[trigger] r[k]
                    == s[k]
        }),
{
    lemma_wide_choice(s, base, stride, strengths, filter_size, bit_depth);
    lemma_widest_written(s, base, stride);
    lemma_widest_value_m7(s, base, stride);
    lemma_widest_value_m6(s, base, stride);
    lemma_widest_value_m5(s, base, stride);
    lemma_widest_value_m4(s, base, stride);
    lemma_widest_value_m3(s, base, stride);
    lemma_widest_value_m2(s, base, stride);
    lemma_widest_value_m1(s, base, stride);
    lemma_widest_value_0(s, base, stride);
    lemma_widest_value_1(s, base, stride);
    lemma_widest_value_2(s, base, stride);
    lemma_widest_value_3(s, base, stride);
    lemma_widest_value_4(s, base, stride);
    lemma_widest_value_5(s, base, stride);
    lemma_widest_value_6(s, base, stride);
}

} // verus!
