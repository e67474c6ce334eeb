//! The deblocking filter.
//!
//! Every superblock of the frame, in raster order, is filtered in each plane
//! first across its vertical edges and then across its horizontal edges. A
//! sample can be filtered several times, so the order matters.
//!
//! Filtering at a position of an edge touches a run of samples across the edge:
//! tap `k >= 0` is the `k`-th sample after the edge, tap `-1 - k` the `k`-th
//! before it. In a row-major buffer the taps stand `stride` apart, 1 across a
//! vertical edge and the plane's width across a horizontal one.

use vstd::arithmetic::power2::{lemma2_to64, pow2};
use vstd::prelude::*;
use crate::common::{
    get_uv_tx_size, power_of_two, spec_clip3, spec_round2, spec_uv_tx_size, ss_size_defined,
    INTRA_FRAME, MAX_SEGMENTS,
};
use crate::framebuffer::{lemma_row_major, row_major, Plane};
use crate::header::{LoopFilterParams, SegmentationParams, SEG_LVL_ALT_L};
use crate::prob_tables::{
    BLOCK_16X16, NEARESTMV, NEARMV, NEWMV, NUM_8X8_BLOCKS_HIGH_LOOKUP, NUM_8X8_BLOCKS_WIDE_LOOKUP,
    TX_16X16, TX_4X4, TX_8X8,
};
use crate::tile::{MiGrid, MiInfo};

pub use crate::common::{clip3, round2};

pub mod laws;
pub mod parts;
pub mod places;

verus! {

pub const MAX_REF_FRAMES: usize = 4;

pub const MAX_MODE_LF_DELTAS: usize = 2;

pub const MAX_LOOP_FILTER: i32 = 63;

/// Filter levels by segment, reference frame type and mode class.
pub type LvlLookup = [[[i32; MAX_MODE_LF_DELTAS]; MAX_REF_FRAMES]; MAX_SEGMENTS];

// ---------------------------------------------------------------------------
// Filter levels and strengths.
// ---------------------------------------------------------------------------

/// The level of a segment: that of the frame, unless the segment replaces it or
/// adds to it.
pub open spec fn segment_level(lf: LoopFilterParams, seg: SegmentationParams, s: int) -> int {
    if seg.enabled && seg.feature_enabled[s][SEG_LVL_ALT_L as int] {
        let data = seg.feature_data[s][SEG_LVL_ALT_L as int] as int;
        spec_clip3(
            0,
            63,
            if seg.abs_or_delta_update {
                data
            } else {
                data + lf.level
            },
        )
    } else {
        lf.level as int
    }
}

/// The factor of the deltas, which grows with the frame's level.
pub open spec fn delta_scale(lf: LoopFilterParams) -> int {
    pow2((lf.level / 32) as nat) as int
}

/// The level for a segment, reference frame type and mode class. Intra blocks
/// have the mode class 0 only.
pub open spec fn filter_level(
    lf: LoopFilterParams,
    seg: SegmentationParams,
    s: int,
    r: int,
    m: int,
) -> int {
    let base = segment_level(lf, seg, s);
    let scale = delta_scale(lf);
    if !lf.delta_enabled {
        base
    } else if r == INTRA_FRAME {
        if m == 0 {
            spec_clip3(0, 63, base + lf.ref_deltas[0] * scale)
        } else {
            0
        }
    } else {
        spec_clip3(0, 63, base + lf.ref_deltas[r] * scale + lf.mode_deltas[m] * scale)
    }
}

/// The table holds the levels.
pub open spec fn levels_ok(t: LvlLookup, lf: LoopFilterParams, seg: SegmentationParams) -> bool {
    forall|s: int, r: int, m: int|
        0 <= s < 8 && 0 <= r < 4 && 0 <= m < 2 ==> #[trigger] t[s][r][m] == filter_level(
            lf,
            seg,
            s,
            r,
            m,
        )
}

/// A segment's level can be computed in 32 bits.
pub open spec fn segment_data_ok(lf: LoopFilterParams, seg: SegmentationParams) -> bool {
    forall|s: int|
        0 <= s < 8 && seg.enabled && !seg.abs_or_delta_update
            && seg.feature_enabled[s][SEG_LVL_ALT_L as int] ==> #[trigger] seg.feature_data[s][SEG_LVL_ALT_L as int]
            + lf.level <= i32::MAX
}

/// Every level is between 0 and 63 where the frame's level is.
pub proof fn lemma_filter_level_range(
    lf: LoopFilterParams,
    seg: SegmentationParams,
    s: int,
    r: int,
    m: int,
)
    ensures
        0 <= filter_level(lf, seg, s, r, m) <= 255,
        lf.level <= 63 ==> filter_level(lf, seg, s, r, m) <= 63,
{
}

/// Computes the filter levels.
pub fn build_lvl_lookup(lf: &LoopFilterParams, seg: &SegmentationParams) -> (table: LvlLookup)
    requires
        segment_data_ok(*lf, *seg),
    ensures
        levels_ok(table, *lf, *seg),
{
    proof {
        lemma2_to64();
    }
    let scale: i32 = power_of_two((lf.level / 32) as u32) as i32;
    assert(1 <= scale <= 128);
    let mut table: LvlLookup = [[[0i32; 2]; 4]; 8];
    for s in 0..8usize
        invariant
            segment_data_ok(*lf, *seg),
            scale == delta_scale(*lf),
            1 <= scale <= 128,
            forall|s2: int, r: int, m: int|
                0 <= s2 < s && 0 <= r < 4 && 0 <= m < 2 ==> #[trigger] table[s2][r][m]
                    == filter_level(*lf, *seg, s2, r, m),
    {
        let mut lvl_seg: i32 = lf.level as i32;
        if seg.enabled && seg.feature_enabled[s][1] {
            let data: i32 = seg.feature_data[s][1];
            lvl_seg = if seg.abs_or_delta_update {
                data
            } else {
                data + lf.level as i32
            };
            lvl_seg = clip3(0, MAX_LOOP_FILTER, lvl_seg);
        }
        assert(lvl_seg == segment_level(*lf, *seg, s as int));
        let mut seg_table: [[i32; 2]; 4] = [[lvl_seg; 2]; 4];
        if lf.delta_enabled {
            let intra_delta: i32 = scaled_delta(lf.ref_deltas[0], scale);
            seg_table[0] = [clip3(0, MAX_LOOP_FILTER, lvl_seg + intra_delta), 0];
            for r in 1..4usize
                invariant
                    lf.delta_enabled,
                    s < 8,
                    scale == delta_scale(*lf),
                    1 <= scale <= 128,
                    0 <= lvl_seg <= 255,
                    lvl_seg == segment_level(*lf, *seg, s as int),
                    forall|r2: int, m: int|
                        0 <= r2 < r && 0 <= m < 2 ==> #[trigger] seg_table[r2][m] == filter_level(
                            *lf,
                            *seg,
                            s as int,
                            r2,
                            m,
                        ),
            {
                let ref_delta: i32 = scaled_delta(lf.ref_deltas[r], scale);
                let mode_delta0: i32 = scaled_delta(lf.mode_deltas[0], scale);
                let mode_delta1: i32 = scaled_delta(lf.mode_deltas[1], scale);
                seg_table[r] = [
                    clip3(0, MAX_LOOP_FILTER, lvl_seg + ref_delta + mode_delta0),
                    clip3(0, MAX_LOOP_FILTER, lvl_seg + ref_delta + mode_delta1),
                ];
            }
        }
        table[s] = seg_table;
    }
    table
}

fn scaled_delta(delta: i8, scale: i32) -> (d: i32)
    requires
        1 <= scale <= 128,
    ensures
        d == delta * scale,
        -0x4000 <= d <= 0x4000,
{
    proof {
        assert(-0x4000 <= delta * scale <= 0x4000) by (nonlinear_arith)
            requires
                1 <= scale <= 128,
                -128 <= delta <= 127,
        ;
    }
    delta as i32 * scale
}

/// The greatest step between neighbours that still counts as smooth, for 8-bit
/// samples.
pub open spec fn limit_of(lvl: int, sharpness: u8) -> int {
    if sharpness > 4 {
        spec_clip3(1, 9 - sharpness, lvl / 4)
    } else if sharpness > 0 {
        spec_clip3(1, 9 - sharpness, lvl / 2)
    } else if lvl < 1 {
        1
    } else {
        lvl
    }
}

/// The factor between 8-bit samples and samples of `bit_depth` bits.
pub open spec fn depth_scale(bit_depth: int) -> int {
    pow2((bit_depth - 8) as nat) as int
}

/// The three strengths of a level: the smoothness limit, the limit across the
/// edge and the high-variance threshold.
pub open spec fn strengths_of(lvl: int, sharpness: u8, bit_depth: int) -> (int, int, int) {
    let limit = limit_of(lvl, sharpness);
    let scale = depth_scale(bit_depth);
    (limit * scale, (2 * (lvl + 2) + limit) * scale, (lvl / 16) * scale)
}

/// Computes the strengths of a level.
pub fn adaptive_filter_strength(lvl: i32, sharpness: u8, bit_depth: u8) -> (t: (i32, i32, i32))
    requires
        0 <= lvl <= 255,
        sharpness <= 8,
        8 <= bit_depth <= 16,
    ensures
        (t.0 as int, t.1 as int, t.2 as int) == strengths_of(
            lvl as int,
            sharpness,
            bit_depth as int,
        ),
{
    let limit: i32 = if sharpness > 4 {
        clip3(1, 9 - sharpness as i32, lvl / 4)
    } else if sharpness > 0 {
        clip3(1, 9 - sharpness as i32, lvl / 2)
    } else if lvl < 1 {
        1
    } else {
        lvl
    };
    let blimit: i32 = 2 * (lvl + 2) + limit;
    let thresh: i32 = lvl / 16;
    let scale: i32 = exec_depth_scale(bit_depth);
    proof {
        assert(0 <= limit * scale <= 255 * 256) by (nonlinear_arith)
            requires
                0 <= limit <= 255,
                1 <= scale <= 256,
        ;
        assert(0 <= blimit * scale <= 769 * 256) by (nonlinear_arith)
            requires
                0 <= blimit <= 769,
                1 <= scale <= 256,
        ;
        assert(0 <= thresh * scale <= 15 * 256) by (nonlinear_arith)
            requires
                0 <= thresh <= 15,
                1 <= scale <= 256,
        ;
    }
    (limit * scale, blimit * scale, thresh * scale)
}

fn exec_depth_scale(bit_depth: u8) -> (scale: i32)
    requires
        8 <= bit_depth <= 16,
    ensures
        scale == depth_scale(bit_depth as int),
        1 <= scale <= 256,
{
    proof {
        lemma2_to64();
    }
    power_of_two((bit_depth - 8) as u32) as i32
}

// ---------------------------------------------------------------------------
// Filtering across an edge.
// ---------------------------------------------------------------------------

/// The sample at tap `k` of the run at `base`.
pub open spec fn tap(s: Seq<u16>, base: int, stride: int, k: int) -> int {
    s[base + stride * k] as int
}

/// The taps from `lo` to `hi` lie in the buffer.
pub open spec fn taps_in(s: Seq<u16>, base: int, stride: int, lo: int, hi: int) -> bool {
    forall|k: int| lo <= k <= hi ==> 0 <= #[trigger] (base + stride * k) < s.len()
}

/// The difference of two taps is at most `limit` either way.
pub open spec fn close(a: int, b: int, limit: int) -> bool {
    -limit <= a - b <= limit
}

pub open spec fn distance(a: int, b: int) -> int {
    if a >= b {
        a - b
    } else {
        b - a
    }
}

/// High variance at the edge: a step next to it is beyond the threshold.
pub open spec fn high_variance(s: Seq<u16>, base: int, stride: int, thresh: int) -> bool {
    !close(tap(s, base, stride, -2), tap(s, base, stride, -1), thresh) || !close(
        tap(s, base, stride, 1),
        tap(s, base, stride, 0),
        thresh,
    )
}

/// The edge is to be filtered: the four samples on each side are smooth, and
/// the step across the edge is small.
pub open spec fn filter_wanted(
    s: Seq<u16>,
    base: int,
    stride: int,
    limit: int,
    blimit: int,
) -> bool {
    &&& close(tap(s, base, stride, -4), tap(s, base, stride, -3), limit)
    &&& close(tap(s, base, stride, -3), tap(s, base, stride, -2), limit)
    &&& close(tap(s, base, stride, -2), tap(s, base, stride, -1), limit)
    &&& close(tap(s, base, stride, 1), tap(s, base, stride, 0), limit)
    &&& close(tap(s, base, stride, 2), tap(s, base, stride, 1), limit)
    &&& close(tap(s, base, stride, 3), tap(s, base, stride, 2), limit)
    &&& distance(tap(s, base, stride, -1), tap(s, base, stride, 0)) * 2 + distance(
        tap(s, base, stride, -2),
        tap(s, base, stride, 1),
    ) / 2 <= blimit
}

/// The samples from the `from`-th to the `to`-th on each side are as flat as
/// the ones at the edge.
pub open spec fn flat(
    s: Seq<u16>,
    base: int,
    stride: int,
    from: int,
    to: int,
    threshold: int,
) -> bool {
    forall|k: int|
        from <= k <= to ==> close(
            #[trigger] tap(s, base, stride, k),
            tap(s, base, stride, 0),
            threshold,
        ) && close(tap(s, base, stride, -1 - k), tap(s, base, stride, -1), threshold)
}

/// What the narrow filter makes of the samples: it moves the two samples at the
/// edge towards each other, and without high variance also their neighbours,
/// within the range of signed samples.
pub open spec fn narrow_filtered(
    s: Seq<u16>,
    base: int,
    stride: int,
    hev: bool,
    bit_depth: int,
) -> Seq<u16> {
    let half = 128 * depth_scale(bit_depth);
    let lo = -half;
    let hi = half - 1;
    let ps1 = tap(s, base, stride, -2) - half;
    let ps0 = tap(s, base, stride, -1) - half;
    let qs0 = tap(s, base, stride, 0) - half;
    let qs1 = tap(s, base, stride, 1) - half;
    let outer = if hev {
        spec_clip3(lo, hi, ps1 - qs1)
    } else {
        0
    };
    let filter = spec_clip3(lo, hi, outer + 3 * (qs0 - ps0));
    let filter1 = spec_clip3(lo, hi, filter + 4) / 8;
    let filter2 = spec_clip3(lo, hi, filter + 3) / 8;
    let inner = s.update(base, (spec_clip3(lo, hi, qs0 - filter1) + half) as u16).update(
        base - stride,
        (spec_clip3(lo, hi, ps0 + filter2) + half) as u16,
    );
    if hev {
        inner
    } else {
        let f = spec_round2(filter1, 1);
        inner.update(base + stride, (spec_clip3(lo, hi, qs1 - f) + half) as u16).update(
            base - 2 * stride,
            (spec_clip3(lo, hi, ps1 + f) + half) as u16,
        )
    }
}

/// The sum of the taps `i - n` to `i - n + count - 1`, each limited to the
/// `n + 1` taps on either side of the edge.
pub open spec fn window_sum(s: Seq<u16>, base: int, stride: int, n: int, i: int, count: nat) -> int
    decreases count,
{
    if count == 0 {
        0
    } else {
        window_sum(s, base, stride, n, i, (count - 1) as nat) + tap(
            s,
            base,
            stride,
            spec_clip3(-(n + 1), n, i - n + count - 1),
        )
    }
}

/// What the wide filter makes of tap `i`: the mean of the `2 n + 1` taps round
/// it, with the tap itself counted twice.
pub open spec fn wide_value(s: Seq<u16>, base: int, stride: int, log2_size: nat, i: int) -> int {
    let n = pow2((log2_size - 1) as nat) - 1;
    spec_round2(
        tap(s, base, stride, i) + window_sum(s, base, stride, n, i, (2 * n + 1) as nat),
        log2_size,
    )
}

/// The samples with the first `count` of the taps from `-n` on replaced by what
/// the wide filter makes of them.
pub open spec fn wide_written(
    s: Seq<u16>,
    base: int,
    stride: int,
    log2_size: nat,
    count: nat,
) -> Seq<
    u16,
>
    decreases count,
{
    if count == 0 {
        s
    } else {
        let n = pow2((log2_size - 1) as nat) - 1;
        let i = count - 1 - n;
        wide_written(s, base, stride, log2_size, (count - 1) as nat).update(
            base + stride * i,
            wide_value(s, base, stride, log2_size, i) as u16,
        )
    }
}

/// What the wide filter makes of the samples.
pub open spec fn wide_filtered(s: Seq<u16>, base: int, stride: int, log2_size: nat) -> Seq<u16> {
    wide_written(s, base, stride, log2_size, (2 * (pow2((log2_size - 1) as nat) - 1)) as nat)
}

/// What filtering at one position makes of the samples: nothing where the edge
/// is not to be filtered; the wide filters where the samples are flat and the
/// filter size allows it; else the narrow filter.
pub open spec fn edge_filtered(
    s: Seq<u16>,
    base: int,
    stride: int,
    strengths: (int, int, int),
    filter_size: u8,
    bit_depth: int,
) -> Seq<u16> {
    let threshold = depth_scale(bit_depth);
    if !filter_wanted(s, base, stride, strengths.0, strengths.1) {
        s
    } else if filter_size == TX_4X4 || !flat(s, base, stride, 1, 3, threshold) {
        narrow_filtered(s, base, stride, high_variance(s, base, stride, strengths.2), bit_depth)
    } else if filter_size == TX_8X8 || !flat(s, base, stride, 4, 7, threshold) {
        wide_filtered(s, base, stride, 3)
    } else {
        wide_filtered(s, base, stride, 4)
    }
}

/// The buffer index of a position of a plane.
pub open spec fn base_of(p: Plane, x: int, y: int) -> int {
    row_major(p.width as int, x - p.x0, y)
}

/// The distance between taps: to the right for `dx == 1`, down for `dy == 1`.
pub open spec fn stride_of(p: Plane, dx: int, dy: int) -> int {
    dy * p.width + dx
}

/// The taps from `lo` to `hi` lie in the plane.
pub open spec fn window_in(p: Plane, x: int, y: int, dx: int, dy: int, lo: int, hi: int) -> bool {
    &&& p.wf()
    &&& (dx == 1 && dy == 0) || (dx == 0 && dy == 1)
    &&& p.contains(x + dx * lo, y + dy * lo)
    &&& p.contains(x + dx * hi, y + dy * hi)
    &&& lo <= 0 <= hi
    &&& p.x0 + p.width <= usize::MAX
}

/// Inside the window, a tap's index in the buffer is that of its position.
proof fn lemma_tap_index(p: Plane, x: int, y: int, dx: int, dy: int, lo: int, hi: int, k: int)
    requires
        window_in(p, x, y, dx, dy, lo, hi),
        lo <= k <= hi,
    ensures
        p.contains(x + dx * k, y + dy * k),
        base_of(p, x + dx * k, y + dy * k) == base_of(p, x, y) + stride_of(p, dx, dy) * k,
        0 <= base_of(p, x, y) + stride_of(p, dx, dy) * k < p.samples().len(),
{
    let w = p.width as int;
    if dx == 1 {
        assert(stride_of(p, dx, dy) == 1);
    } else {
        assert(stride_of(p, dx, dy) == w);
        assert((y + k) * w == y * w + w * k) by (nonlinear_arith);
    }
    lemma_row_major(w, p.height as int, x + dx * k - p.x0, y + dy * k);
}

/// Reads tap `k`.
fn get_off(plane: &Plane, x: usize, y: usize, dx: i64, dy: i64, k: i64) -> (v: i32)
    requires
        -8 <= k <= 7,
        window_in(
            *plane,
            x as int,
            y as int,
            dx as int,
            dy as int,
            if k < 0 { k as int } else { 0 },
            if k > 0 { k as int } else { 0 },
        ),
    ensures
        v == tap(
            plane.samples(),
            base_of(*plane, x as int, y as int),
            stride_of(*plane, dx as int, dy as int),
            k as int,
        ),
        0 <= v <= 0xffff,
{
    proof {
        lemma_tap_index(
            *plane,
            x as int,
            y as int,
            dx as int,
            dy as int,
            if k < 0 { k as int } else { 0 },
            if k > 0 { k as int } else { 0 },
            k as int,
        );
    }
    let (px, py) = offset_position(x, y, dx, dy, k, Ghost(*plane));
    plane.get(px, py) as i32
}

/// The position of tap `k`.
fn offset_position(
    x: usize,
    y: usize,
    dx: i64,
    dy: i64,
    k: i64,
    Ghost(p): Ghost<Plane>,
) -> (t: (usize, usize))
    requires
        -8 <= k <= 7,
        (dx == 1 && dy == 0) || (dx == 0 && dy == 1),
        p.contains(x + dx * k, y + dy * k),
        p.x0 + p.width <= usize::MAX,
    ensures
        t.0 == x + dx * k,
        t.1 == y + dy * k,
{
    if dx == 1 {
        if k >= 0 {
            (x + k as usize, y)
        } else {
            (x - (-k) as usize, y)
        }
    } else {
        if k >= 0 {
            (x, y + k as usize)
        } else {
            (x, y - (-k) as usize)
        }
    }
}

/// Replaces tap `k`.
fn set_off(plane: &mut Plane, x: usize, y: usize, dx: i64, dy: i64, k: i64, v: i32)
    requires
        -8 <= k <= 7,
        0 <= v <= 0xffff,
        window_in(
            *old(plane),
            x as int,
            y as int,
            dx as int,
            dy as int,
            if k < 0 { k as int } else { 0 },
            if k > 0 { k as int } else { 0 },
        ),
    ensures
        final(plane).wf(),
        final(plane).same_shape(old(plane)),
        final(plane).samples() == old(plane).samples().update(
            base_of(*old(plane), x as int, y as int) + stride_of(
                *old(plane),
                dx as int,
                dy as int,
            ) * k,
            v as u16,
        ),
{
    proof {
        lemma_tap_index(
            *plane,
            x as int,
            y as int,
            dx as int,
            dy as int,
            if k < 0 { k as int } else { 0 },
            if k > 0 { k as int } else { 0 },
            k as int,
        );
    }
    let (px, py) = offset_position(x, y, dx, dy, k, Ghost(*plane));
    plane.set(px, py, v as u16);
}

fn within(a: i32, b: i32, limit: i32) -> (r: bool)
    requires
        0 <= a <= 0xffff,
        0 <= b <= 0xffff,
    ensures
        r == close(a as int, b as int, limit as int),
{
    let d: i32 = if a >= b { a - b } else { b - a };
    d <= limit
}

/// A window holds every smaller one.
proof fn lemma_window_shrinks(
    p: Plane,
    x: int,
    y: int,
    dx: int,
    dy: int,
    lo: int,
    hi: int,
    lo2: int,
    hi2: int,
)
    requires
        window_in(p, x, y, dx, dy, lo, hi),
        lo <= lo2 <= 0 <= hi2 <= hi,
    ensures
        window_in(p, x, y, dx, dy, lo2, hi2),
{
    lemma_tap_index(p, x, y, dx, dy, lo, hi, lo2);
    lemma_tap_index(p, x, y, dx, dy, lo, hi, hi2);
}

/// Reads tap `k` of a larger window.
fn get_tap(
    plane: &Plane,
    x: usize,
    y: usize,
    dx: i64,
    dy: i64,
    k: i64,
    Ghost(lo): Ghost<int>,
    Ghost(hi): Ghost<int>,
) -> (v: i32)
    requires
        -8 <= lo <= k <= hi <= 7,
        window_in(*plane, x as int, y as int, dx as int, dy as int, lo, hi),
    ensures
        v == tap(
            plane.samples(),
            base_of(*plane, x as int, y as int),
            stride_of(*plane, dx as int, dy as int),
            k as int,
        ),
        0 <= v <= 0xffff,
{
    proof {
        lemma_window_shrinks(
            *plane,
            x as int,
            y as int,
            dx as int,
            dy as int,
            lo,
            hi,
            if k < 0 { k as int } else { 0 },
            if k > 0 { k as int } else { 0 },
        );
    }
    get_off(plane, x, y, dx, dy, k)
}

/// Decides how to filter at a position: whether the variance is high, whether
/// to filter at all, and whether the samples are flat enough for each of the
/// wide filters.
fn compute_filter_mask(
    plane: &Plane,
    x: usize,
    y: usize,
    dx: i64,
    dy: i64,
    limit: i32,
    blimit: i32,
    thresh: i32,
    filter_size: u8,
    bit_depth: u8,
) -> (t: (bool, bool, bool, bool))
    requires
        8 <= bit_depth <= 16,
        window_in(*plane, x as int, y as int, dx as int, dy as int, -4, 3),
        filter_size >= TX_16X16 ==> window_in(*plane, x as int, y as int, dx as int, dy as int, -8, 7),
    ensures
        ({
            let s = plane.samples();
            let base = base_of(*plane, x as int, y as int);
            let stride = stride_of(*plane, dx as int, dy as int);
            let threshold = depth_scale(bit_depth as int);
            &&& t.0 == high_variance(s, base, stride, thresh as int)
            &&& t.1 == filter_wanted(s, base, stride, limit as int, blimit as int)
            &&& t.2 == (filter_size >= TX_8X8 && flat(s, base, stride, 1, 3, threshold))
            &&& t.3 == (filter_size >= TX_16X16 && flat(s, base, stride, 4, 7, threshold))
        }),
{
    let q0: i32 = get_tap(plane, x, y, dx, dy, 0, Ghost(-4), Ghost(3));
    let q1: i32 = get_tap(plane, x, y, dx, dy, 1, Ghost(-4), Ghost(3));
    let q2: i32 = get_tap(plane, x, y, dx, dy, 2, Ghost(-4), Ghost(3));
    let q3: i32 = get_tap(plane, x, y, dx, dy, 3, Ghost(-4), Ghost(3));
    let p0: i32 = get_tap(plane, x, y, dx, dy, -1, Ghost(-4), Ghost(3));
    let p1: i32 = get_tap(plane, x, y, dx, dy, -2, Ghost(-4), Ghost(3));
    let p2: i32 = get_tap(plane, x, y, dx, dy, -3, Ghost(-4), Ghost(3));
    let p3: i32 = get_tap(plane, x, y, dx, dy, -4, Ghost(-4), Ghost(3));
    let hev_mask: bool = !within(p1, p0, thresh) || !within(q1, q0, thresh);
    let across0: i32 = if p0 >= q0 { p0 - q0 } else { q0 - p0 };
    let across1: i32 = if p1 >= q1 { p1 - q1 } else { q1 - p1 };
    let filter_mask: bool = within(p3, p2, limit) && within(p2, p1, limit) && within(p1, p0, limit)
        && within(q1, q0, limit) && within(q2, q1, limit) && within(q3, q2, limit) && across0 * 2
        + across1 / 2 <= blimit;
    let threshold: i32 = exec_depth_scale(bit_depth);
    let ghost s = plane.samples();
    let ghost base = base_of(*plane, x as int, y as int);
    let ghost stride = stride_of(*plane, dx as int, dy as int);
    let mut flat_mask: bool = false;
    if filter_size >= TX_8X8 {
        flat_mask =
        within(q1, q0, threshold) && within(p1, p0, threshold) && within(q2, q0, threshold)
            && within(p2, p0, threshold) && within(q3, q0, threshold) && within(p3, p0, threshold);
        proof {
            let f = flat(s, base, stride, 1, 3, threshold as int);
            assert(f ==> {
                let _ = tap(s, base, stride, 1);
                let _ = tap(s, base, stride, 2);
                let _ = tap(s, base, stride, 3);
                flat_mask
            });
            assert(flat_mask ==> f) by {
                if flat_mask {
                    assert forall|k: int| 1 <= k <= 3 implies close(
                        #[trigger] tap(s, base, stride, k),
                        tap(s, base, stride, 0),
                        threshold as int,
                    ) && close(
                        tap(s, base, stride, -1 - k),
                        tap(s, base, stride, -1),
                        threshold as int,
                    ) by {
                        assert(k == 1 || k == 2 || k == 3);
                    }
                }
            }
        }
    }
    let mut flat_mask2: bool = false;
    if filter_size >= TX_16X16 {
        let q4: i32 = get_tap(plane, x, y, dx, dy, 4, Ghost(-8), Ghost(7));
        let q5: i32 = get_tap(plane, x, y, dx, dy, 5, Ghost(-8), Ghost(7));
        let q6: i32 = get_tap(plane, x, y, dx, dy, 6, Ghost(-8), Ghost(7));
        let q7: i32 = get_tap(plane, x, y, dx, dy, 7, Ghost(-8), Ghost(7));
        let p4: i32 = get_tap(plane, x, y, dx, dy, -5, Ghost(-8), Ghost(7));
        let p5: i32 = get_tap(plane, x, y, dx, dy, -6, Ghost(-8), Ghost(7));
        let p6: i32 = get_tap(plane, x, y, dx, dy, -7, Ghost(-8), Ghost(7));
        let p7: i32 = get_tap(plane, x, y, dx, dy, -8, Ghost(-8), Ghost(7));
        flat_mask2 =
        within(q4, q0, threshold) && within(p4, p0, threshold) && within(q5, q0, threshold)
            && within(p5, p0, threshold) && within(q6, q0, threshold) && within(p6, p0, threshold)
            && within(q7, q0, threshold) && within(p7, p0, threshold);
        proof {
            let f = flat(s, base, stride, 4, 7, threshold as int);
            assert(f ==> {
                let _ = tap(s, base, stride, 4);
                let _ = tap(s, base, stride, 5);
                let _ = tap(s, base, stride, 6);
                let _ = tap(s, base, stride, 7);
                flat_mask2
            });
            assert(flat_mask2 ==> f) by {
                if flat_mask2 {
                    assert forall|k: int| 4 <= k <= 7 implies close(
                        #[trigger] tap(s, base, stride, k),
                        tap(s, base, stride, 0),
                        threshold as int,
                    ) && close(
                        tap(s, base, stride, -1 - k),
                        tap(s, base, stride, -1),
                        threshold as int,
                    ) by {
                        assert(k == 4 || k == 5 || k == 6 || k == 7);
                    }
                }
            }
        }
    }
    (hev_mask, filter_mask, flat_mask, flat_mask2)
}

fn clamp_signed(v: i32, half: i32) -> (r: i32)
    requires
        1 <= half <= 0x8000,
    ensures
        r == spec_clip3(-half as int, half - 1, v as int),
{
    clip3(-half, half - 1, v)
}

fn div8(v: i32) -> (r: i32)
    ensures
        r == v as int / 8,
{
    crate::common::floor_div(v as i64, 8) as i32
}

/// Applies the narrow filter at a position.
pub fn narrow_filter(
    plane: &mut Plane,
    x: usize,
    y: usize,
    dx: i64,
    dy: i64,
    hev_mask: bool,
    bit_depth: u8,
)
    requires
        8 <= bit_depth <= 16,
        window_in(*old(plane), x as int, y as int, dx as int, dy as int, -2, 1),
    ensures
        final(plane).wf(),
        final(plane).same_shape(old(plane)),
        final(plane).samples() == narrow_filtered(
            old(plane).samples(),
            base_of(*old(plane), x as int, y as int),
            stride_of(*old(plane), dx as int, dy as int),
            hev_mask,
            bit_depth as int,
        ),
{
    let ghost before = *plane;
    proof {
        lemma_window_shrinks(before, x as int, y as int, dx as int, dy as int, -2, 1, 0, 0);
        lemma_window_shrinks(before, x as int, y as int, dx as int, dy as int, -2, 1, -1, 0);
        lemma_window_shrinks(before, x as int, y as int, dx as int, dy as int, -2, 1, -2, 0);
        lemma_window_shrinks(before, x as int, y as int, dx as int, dy as int, -2, 1, 0, 1);
    }
    let half: i32 = 128 * exec_depth_scale(bit_depth);
    let q0: i32 = get_tap(plane, x, y, dx, dy, 0, Ghost(-2), Ghost(1));
    let q1: i32 = get_tap(plane, x, y, dx, dy, 1, Ghost(-2), Ghost(1));
    let p0: i32 = get_tap(plane, x, y, dx, dy, -1, Ghost(-2), Ghost(1));
    let p1: i32 = get_tap(plane, x, y, dx, dy, -2, Ghost(-2), Ghost(1));
    let ps1: i32 = p1 - half;
    let ps0: i32 = p0 - half;
    let qs0: i32 = q0 - half;
    let qs1: i32 = q1 - half;
    let outer: i32 = if hev_mask { clamp_signed(ps1 - qs1, half) } else { 0 };
    let filter: i32 = clamp_signed(outer + 3 * (qs0 - ps0), half);
    let filter1: i32 = div8(clamp_signed(filter + 4, half));
    let filter2: i32 = div8(clamp_signed(filter + 3, half));
    let oq0: i32 = clamp_signed(qs0 - filter1, half) + half;
    let op0: i32 = clamp_signed(ps0 + filter2, half) + half;
    set_off(plane, x, y, dx, dy, 0, oq0);
    set_off(plane, x, y, dx, dy, -1, op0);
    if !hev_mask {
        let f: i32 = round2(filter1, 1);
        proof {
            crate::common::lemma_round2_between(filter1 as int, 1);
        }
        let oq1: i32 = clamp_signed(qs1 - f, half) + half;
        let op1: i32 = clamp_signed(ps1 + f, half) + half;
        set_off(plane, x, y, dx, dy, 1, oq1);
        set_off(plane, x, y, dx, dy, -2, op1);
    }
}

/// Window sums of 16-bit samples are small.
proof fn lemma_window_sum_range(s: Seq<u16>, base: int, stride: int, n: int, i: int, count: nat)
    ensures
        0 <= window_sum(s, base, stride, n, i, count) <= 0xffff * count,
    decreases count,
{
    if count > 0 {
        lemma_window_sum_range(s, base, stride, n, i, (count - 1) as nat);
    }
}

/// What the wide filter makes of a tap is a sample.
proof fn lemma_wide_value_range(s: Seq<u16>, base: int, stride: int, log2_size: nat, i: int)
    requires
        log2_size == 3 || log2_size == 4,
    ensures
        0 <= wide_value(s, base, stride, log2_size, i) <= 0xffff,
{
    lemma2_to64();
    let n = pow2((log2_size - 1) as nat) - 1;
    lemma_window_sum_range(s, base, stride, n, i, (2 * n + 1) as nat);
}

/// Computes what the wide filter makes of tap `i`.
fn wide_tap(
    plane: &Plane,
    x: usize,
    y: usize,
    dx: i64,
    dy: i64,
    log2_size: u32,
    n: i64,
    i: i64,
) -> (v: i32)
    requires
        log2_size == 3 || log2_size == 4,
        n == pow2((log2_size - 1) as nat) - 1,
        n == 3 || n == 7,
        -n <= i < n,
        window_in(*plane, x as int, y as int, dx as int, dy as int, -(n + 1), n as int),
    ensures
        v == wide_value(
            plane.samples(),
            base_of(*plane, x as int, y as int),
            stride_of(*plane, dx as int, dy as int),
            log2_size as nat,
            i as int,
        ),
        0 <= v <= 0xffff,
{
    let ghost s = plane.samples();
    let ghost base = base_of(*plane, x as int, y as int);
    let ghost stride = stride_of(*plane, dx as int, dy as int);
    let mut t: i32 = get_tap(plane, x, y, dx, dy, i, Ghost(-(n + 1)), Ghost(n as int));
    let ghost own = t as int;
    let mut j: i64 = -n;
    while j <= n
        invariant
            n == 3 || n == 7,
            -n <= i < n,
            -n <= j <= n + 1,
            0 <= own <= 0xffff,
            window_in(*plane, x as int, y as int, dx as int, dy as int, -(n + 1), n as int),
            s == plane.samples(),
            base == base_of(*plane, x as int, y as int),
            stride == stride_of(*plane, dx as int, dy as int),
            t == own + window_sum(s, base, stride, n as int, i as int, (j + n) as nat),
        decreases n + 1 - j,
    {
        let at: i64 = clip3(-(n as i32) - 1, n as i32, (i + j) as i32) as i64;
        proof {
            lemma_window_sum_range(s, base, stride, n as int, i as int, (j + n) as nat);
        }
        t = t + get_tap(plane, x, y, dx, dy, at, Ghost(-(n + 1)), Ghost(n as int));
        j += 1;
        proof {
            assert((j + n) as nat - 1 == (j - 1 + n) as nat);
        }
    }
    proof {
        lemma_wide_value_range(s, base, stride, log2_size as nat, i as int);
    }
    round2(t, log2_size)
}

/// Applies a wide filter at a position; `log2_size` is 3 or 4.
fn wide_filter(plane: &mut Plane, x: usize, y: usize, dx: i64, dy: i64, log2_size: u32)
    requires
        log2_size == 3 || log2_size == 4,
        log2_size == 3 ==> window_in(*old(plane), x as int, y as int, dx as int, dy as int, -4, 3),
        log2_size == 4 ==> window_in(*old(plane), x as int, y as int, dx as int, dy as int, -8, 7),
    ensures
        final(plane).wf(),
        final(plane).same_shape(old(plane)),
        final(plane).samples() == wide_filtered(
            old(plane).samples(),
            base_of(*old(plane), x as int, y as int),
            stride_of(*old(plane), dx as int, dy as int),
            log2_size as nat,
        ),
{
    proof {
        lemma2_to64();
    }
    let ghost before = *plane;
    let ghost s = plane.samples();
    let ghost base = base_of(*plane, x as int, y as int);
    let ghost stride = stride_of(*plane, dx as int, dy as int);
    let n: i64 = if log2_size == 3 { 3 } else { 7 };
    let mut f: [i32; 16] = [0; 16];
    let mut i: i64 = -n;
    while i < n
        invariant
            log2_size == 3 || log2_size == 4,
            n == pow2((log2_size - 1) as nat) - 1,
            n == 3 || n == 7,
            -n <= i <= n,
            *plane == before,
            s == before.samples(),
            base == base_of(before, x as int, y as int),
            stride == stride_of(before, dx as int, dy as int),
            window_in(before, x as int, y as int, dx as int, dy as int, -(n + 1), n as int),
            forall|k: int|
                0 <= k < i + n ==> #[trigger] f[k] == wide_value(
                    s,
                    base,
                    stride,
                    log2_size as nat,
                    k - n,
                ) && 0 <= f[k] <= 0xffff,
        decreases n - i,
    {
        let v: i32 = wide_tap(plane, x, y, dx, dy, log2_size, n, i);
        f[(i + n) as usize] = v;
        i += 1;
    }
    i = -n;
    while i < n
        invariant
            log2_size == 3 || log2_size == 4,
            n == pow2((log2_size - 1) as nat) - 1,
            n == 3 || n == 7,
            -n <= i <= n,
            plane.wf(),
            plane.same_shape(&before),
            s == before.samples(),
            base == base_of(before, x as int, y as int),
            stride == stride_of(before, dx as int, dy as int),
            window_in(before, x as int, y as int, dx as int, dy as int, -(n + 1), n as int),
            plane.samples() == wide_written(s, base, stride, log2_size as nat, (i + n) as nat),
            forall|k: int|
                0 <= k < 2 * n ==> #[trigger] f[k] == wide_value(
                    s,
                    base,
                    stride,
                    log2_size as nat,
                    k - n,
                ) && 0 <= f[k] <= 0xffff,
        decreases n - i,
    {
        proof {
            lemma_window_shrinks(
                before,
                x as int,
                y as int,
                dx as int,
                dy as int,
                -(n + 1),
                n as int,
                if i < 0 { i as int } else { 0 },
                if i > 0 { i as int } else { 0 },
            );
        }
        set_off(plane, x, y, dx, dy, i, f[(i + n) as usize]);
        i += 1;
    }
}

/// Filters at a position.
pub fn sample_filtering(
    plane: &mut Plane,
    x: usize,
    y: usize,
    dx: i64,
    dy: i64,
    limit: i32,
    blimit: i32,
    thresh: i32,
    filter_size: u8,
    bit_depth: u8,
)
    requires
        8 <= bit_depth <= 16,
        window_in(*old(plane), x as int, y as int, dx as int, dy as int, -4, 3),
        filter_size >= TX_16X16 ==> window_in(*old(plane), x as int, y as int, dx as int, dy as int, -8, 7),
    ensures
        final(plane).wf(),
        final(plane).same_shape(old(plane)),
        final(plane).samples() == edge_filtered(
            old(plane).samples(),
            base_of(*old(plane), x as int, y as int),
            stride_of(*old(plane), dx as int, dy as int),
            (limit as int, blimit as int, thresh as int),
            filter_size,
            bit_depth as int,
        ),
{
    let (hev_mask, filter_mask, flat_mask, flat_mask2) = compute_filter_mask(
        plane,
        x,
        y,
        dx,
        dy,
        limit,
        blimit,
        thresh,
        filter_size,
        bit_depth,
    );
    if !filter_mask {
        return ;
    }
    proof {
        lemma_window_shrinks(*plane, x as int, y as int, dx as int, dy as int, -4, 3, -2, 1);
    }
    if filter_size == TX_4X4 || !flat_mask {
        narrow_filter(plane, x, y, dx, dy, hev_mask, bit_depth);
    } else if filter_size == TX_8X8 || !flat_mask2 {
        wide_filter(plane, x, y, dx, dy, 3);
    } else {
        wide_filter(plane, x, y, dx, dy, 4);
    }
}

// ---------------------------------------------------------------------------
// Where and how strongly to filter.
// ---------------------------------------------------------------------------

/// A frame to be filtered.
pub struct FilterFrame<'a> {
    pub mi_grid: &'a MiGrid,
    pub mi_cols: u32,
    pub mi_rows: u32,
    pub subsampling_x: u32,
    pub subsampling_y: u32,
    pub lf: &'a LoopFilterParams,
    pub seg: &'a SegmentationParams,
    pub bit_depth: u8,
}

/// A pass over a superblock of a plane: vertical edges in pass 0, horizontal
/// edges in pass 1. `row` and `col` are the superblock's first unit.
pub struct FilterPass {
    pub plane: int,
    pub pass: int,
    pub row: int,
    pub col: int,
}

/// Luma samples per sample: 2 in a subsampled direction, else 1.
pub open spec fn unit(sub: int) -> int {
    if sub == 0 {
        1
    } else {
        2
    }
}

/// The subsampling of the plane of a pass.
pub open spec fn sub_x_of(f: FilterFrame, p: FilterPass) -> int {
    if p.plane == 0 {
        0
    } else {
        f.subsampling_x as int
    }
}

pub open spec fn sub_y_of(f: FilterFrame, p: FilterPass) -> int {
    if p.plane == 0 {
        0
    } else {
        f.subsampling_y as int
    }
}

/// The subsampling across the edges of a pass.
pub open spec fn sub_of(f: FilterFrame, p: FilterPass) -> int {
    if p.pass == 0 {
        sub_x_of(f, p)
    } else {
        sub_y_of(f, p)
    }
}

/// The luma position of sample `i` along edge `edge`; edges are 4 samples apart.
pub open spec fn luma_x(f: FilterFrame, p: FilterPass, edge: int, i: int) -> int {
    p.col * 8 + if p.pass == 0 {
        edge * (4 * unit(sub_x_of(f, p)))
    } else {
        i * unit(sub_x_of(f, p))
    }
}

pub open spec fn luma_y(f: FilterFrame, p: FilterPass, edge: int, i: int) -> int {
    p.row * 8 + if p.pass == 0 {
        i * unit(sub_y_of(f, p))
    } else {
        edge * (4 * unit(sub_y_of(f, p)))
    }
}

/// The first of the units that share a sample with the unit of luma position
/// `a`.
pub open spec fn first_unit(a: int, sub: int) -> int {
    (a / 8) / unit(sub) * unit(sub)
}

/// The mode info that decides at a position.
pub open spec fn info_at(f: FilterFrame, p: FilterPass, edge: int, i: int) -> MiInfo {
    f.mi_grid.at(
        first_unit(luma_y(f, p, edge, i), sub_y_of(f, p)),
        first_unit(luma_x(f, p, edge, i), sub_x_of(f, p)),
    )
}

/// The transform size in the plane of a pass.
pub open spec fn plane_tx_size(f: FilterFrame, p: FilterPass, m: MiInfo) -> u8 {
    if p.plane > 0 {
        spec_uv_tx_size(
            m.mi_size,
            m.tx_size,
            f.subsampling_x as int,
            f.subsampling_y as int,
        )
    } else {
        m.tx_size
    }
}

/// The block size whose edges count: at least 16x16 where the plane is
/// subsampled across the edges.
pub open spec fn edge_block_size(f: FilterFrame, p: FilterPass, m: MiInfo) -> u8 {
    if sub_of(f, p) == 0 || m.mi_size >= BLOCK_16X16 {
        m.mi_size
    } else {
        BLOCK_16X16
    }
}

/// The position is at an edge of its block.
pub open spec fn at_block_edge(f: FilterFrame, p: FilterPass, edge: int, i: int) -> bool {
    let size = edge_block_size(f, p, info_at(f, p, edge, i)) as int;
    if p.pass == 0 {
        luma_x(f, p, edge, i) % (8 * NUM_8X8_BLOCKS_WIDE_LOOKUP[size]) == 0
    } else {
        luma_y(f, p, edge, i) % (8 * NUM_8X8_BLOCKS_HIGH_LOOKUP[size]) == 0
    }
}

/// Side of a transform in units of 4 samples.
pub open spec fn tx_units(tx_size: u8) -> int {
    pow2(tx_size as nat) as int
}

/// The position is at an edge of its transform. Horizontal edges inside the
/// last unit of an odd number of columns do not count in a plane subsampled
/// along them.
pub open spec fn at_tx_edge(f: FilterFrame, p: FilterPass, edge: int, i: int) -> bool {
    if p.pass == 1 && sub_x_of(f, p) == 1 && f.mi_cols % 2 == 1 && edge % 2 == 1 && luma_x(
        f,
        p,
        edge,
        i,
    ) + 8 >= f.mi_cols * 8 {
        false
    } else {
        edge % tx_units(plane_tx_size(f, p, info_at(f, p, edge, i))) == 0
    }
}

/// The position lies in the frame, and not on its left or upper border.
pub open spec fn on_screen(f: FilterFrame, p: FilterPass, edge: int, i: int) -> bool {
    let x = luma_x(f, p, edge, i);
    let y = luma_y(f, p, edge, i);
    x < 8 * f.mi_cols && y < 8 * f.mi_rows && !(p.pass == 0 && x == 0) && !(p.pass == 1 && y == 0)
}

/// Filtering applies at a position: at every block edge, and at a transform
/// edge inside a block that has a residual or is intra.
pub open spec fn applies(f: FilterFrame, p: FilterPass, edge: int, i: int) -> bool {
    let m = info_at(f, p, edge, i);
    on_screen(f, p, edge, i) && (at_block_edge(f, p, edge, i) || (at_tx_edge(f, p, edge, i) && (
    m.ref_frame[0] == INTRA_FRAME || !m.skip)))
}

/// The filter size of a transform size: at least 8x8 at every eighth edge, at
/// most 16x16, and at most 8x8 at the last unit of a subsampled plane.
pub open spec fn size_for(
    f: FilterFrame,
    p: FilterPass,
    tx_size: u8,
    edge: int,
    i: int,
) -> u8 {
    let base = if tx_size == TX_4X4 && edge % 8 == 0 {
        TX_8X8
    } else if tx_size < TX_16X16 {
        tx_size
    } else {
        TX_16X16
    };
    let last = (p.pass == 0 && sub_x_of(f, p) == 1 && luma_x(f, p, edge, i) / 8 == f.mi_cols - 1)
        || (p.pass == 1 && sub_y_of(f, p) == 1 && luma_y(f, p, edge, i) / 8 == f.mi_rows - 1);
    if base == TX_16X16 && last {
        TX_8X8
    } else {
        base
    }
}

/// The filter size at a position.
pub open spec fn filter_size_at(f: FilterFrame, p: FilterPass, edge: int, i: int) -> u8 {
    size_for(f, p, plane_tx_size(f, p, info_at(f, p, edge, i)), edge, i)
}

/// The mode class of a block: 1 for an inter mode with a motion vector.
pub open spec fn mode_class(m: MiInfo) -> int {
    if m.y_mode == NEARESTMV || m.y_mode == NEARMV || m.y_mode == NEWMV {
        1
    } else {
        0
    }
}

/// The filter level at a position.
pub open spec fn level_at(f: FilterFrame, p: FilterPass, edge: int, i: int) -> int {
    let m = info_at(f, p, edge, i);
    filter_level(*f.lf, *f.seg, m.segment_id as int, m.ref_frame[0] as int, mode_class(m))
}

/// The number of edges of a pass.
pub open spec fn edge_count(f: FilterFrame, p: FilterPass) -> int {
    16int / unit(sub_of(f, p))
}

/// The number of samples along an edge.
pub open spec fn edge_length(f: FilterFrame, p: FilterPass) -> int {
    64int / unit(
        if p.pass == 0 {
            sub_y_of(f, p)
        } else {
            sub_x_of(f, p)
        },
    )
}

/// What filtering at one position makes of the plane, whose rows are `width`
/// samples wide.
pub open spec fn position_filtered(
    f: FilterFrame,
    p: FilterPass,
    width: int,
    s: Seq<u16>,
    edge: int,
    i: int,
) -> Seq<u16> {
    let lvl = level_at(f, p, edge, i);
    if applies(f, p, edge, i) && lvl > 0 {
        edge_filtered(
            s,
            row_major(
                width,
                luma_x(f, p, edge, i) / unit(sub_x_of(f, p)),
                luma_y(f, p, edge, i) / unit(sub_y_of(f, p)),
            ),
            if p.pass == 0 {
                1
            } else {
                width
            },
            strengths_of(lvl, f.lf.sharpness, f.bit_depth as int),
            filter_size_at(f, p, edge, i),
            f.bit_depth as int,
        )
    } else {
        s
    }
}

/// What filtering at the first `n` positions of an edge makes of the plane.
pub open spec fn edge_done(
    f: FilterFrame,
    p: FilterPass,
    width: int,
    s: Seq<u16>,
    edge: int,
    n: nat,
) -> Seq<u16>
    decreases n,
{
    if n == 0 {
        s
    } else {
        position_filtered(
            f,
            p,
            width,
            edge_done(f, p, width, s, edge, (n - 1) as nat),
            edge,
            n - 1,
        )
    }
}

/// What filtering the first `n` edges of a pass makes of the plane.
pub open spec fn edges_done(
    f: FilterFrame,
    p: FilterPass,
    width: int,
    s: Seq<u16>,
    n: nat,
) -> Seq<u16>
    decreases n,
{
    if n == 0 {
        s
    } else {
        edge_done(
            f,
            p,
            width,
            edges_done(f, p, width, s, (n - 1) as nat),
            n - 1,
            edge_length(f, p) as nat,
        )
    }
}

/// What a pass makes of the plane.
pub open spec fn pass_done(f: FilterFrame, p: FilterPass, width: int, s: Seq<u16>) -> Seq<u16> {
    edges_done(f, p, width, s, edge_count(f, p) as nat)
}

/// Number of superblocks that cover `n` units.
pub open spec fn superblocks(n: int) -> int {
    (n + 7) / 8
}

/// What filtering the first `n` superblocks, in raster order, makes of a plane.
pub open spec fn superblocks_done(
    f: FilterFrame,
    plane: int,
    width: int,
    s: Seq<u16>,
    n: nat,
) -> Seq<u16>
    decreases n,
{
    if n == 0 {
        s
    } else {
        let k = n - 1;
        let row = 8 * (k / superblocks(f.mi_cols as int));
        let col = 8 * (k % superblocks(f.mi_cols as int));
        let before = superblocks_done(f, plane, width, s, (n - 1) as nat);
        let vertical = pass_done(f, FilterPass { plane, pass: 0, row, col }, width, before);
        pass_done(f, FilterPass { plane, pass: 1, row, col }, width, vertical)
    }
}

/// What the filter makes of a plane.
pub open spec fn plane_filtered(f: FilterFrame, plane: int, width: int, s: Seq<u16>) -> Seq<u16> {
    superblocks_done(
        f,
        plane,
        width,
        s,
        (superblocks(f.mi_rows as int) * superblocks(f.mi_cols as int)) as nat,
    )
}

/// The mode info can be used for filtering.
pub open spec fn info_ok(f: FilterFrame, m: MiInfo) -> bool {
    &&& m.tx_size <= 3
    &&& m.mi_size < 13
    &&& m.segment_id < 8
    &&& m.ref_frame[0] < 4
    &&& ss_size_defined(m.mi_size, f.subsampling_x as int, f.subsampling_y as int)
}

/// The frame can be filtered: the grid covers whole superblocks with usable
/// mode info.
pub open spec fn frame_ok(f: FilterFrame) -> bool {
    &&& f.mi_cols <= 0x100_0000
    &&& f.mi_rows <= 0x100_0000
    &&& f.subsampling_x <= 1
    &&& f.subsampling_y <= 1
    &&& f.lf.sharpness <= 8
    &&& 8 <= f.bit_depth <= 16
    &&& segment_data_ok(*f.lf, *f.seg)
    &&& f.mi_grid.wf()
    &&& f.mi_grid.col0 == 0
    &&& f.mi_grid.cols >= 8 * superblocks(f.mi_cols as int)
    &&& f.mi_grid.rows >= 8 * superblocks(f.mi_rows as int)
    &&& forall|r: int, c: int|
        0 <= r < f.mi_grid.rows && 0 <= c < f.mi_grid.cols ==> info_ok(
            f,
            #[trigger] f.mi_grid.at(r, c),
        )
}

/// A plane covers whole superblocks.
pub open spec fn plane_ok(f: FilterFrame, plane: int, p: Plane) -> bool {
    let ux = unit(if plane == 0 { 0 } else { f.subsampling_x as int });
    let uy = unit(if plane == 0 { 0 } else { f.subsampling_y as int });
    &&& p.wf()
    &&& p.x0 == 0
    &&& p.width >= 64 * superblocks(f.mi_cols as int) / ux
    &&& p.height >= 64 * superblocks(f.mi_rows as int) / uy
}

/// A pass over a superblock of the frame.
pub open spec fn pass_ok(f: FilterFrame, p: FilterPass) -> bool {
    &&& 0 <= p.plane < 3
    &&& p.pass == 0 || p.pass == 1
    &&& p.row % 8 == 0
    &&& p.col % 8 == 0
    &&& 0 <= p.row < f.mi_rows
    &&& 0 <= p.col < f.mi_cols
}

/// Computes the filter size for a transform size at a position.
fn filter_size_process(
    tx_sz: u8,
    is_32_edge: bool,
    pass: u32,
    x: u32,
    y: u32,
    sub_x: u32,
    sub_y: u32,
    mi_cols: u32,
    mi_rows: u32,
    Ghost(f): Ghost<FilterFrame>,
    Ghost(p): Ghost<FilterPass>,
    Ghost(edge): Ghost<int>,
    Ghost(i): Ghost<int>,
) -> (size: u8)
    requires
        is_32_edge == (edge % 8 == 0),
        pass == p.pass,
        x == luma_x(f, p, edge, i),
        y == luma_y(f, p, edge, i),
        sub_x == sub_x_of(f, p),
        sub_y == sub_y_of(f, p),
        mi_cols == f.mi_cols,
        mi_rows == f.mi_rows,
        mi_cols > 0,
        mi_rows > 0,
    ensures
        size == size_for(f, p, tx_sz, edge, i),
{
    let base_size: u8 = if tx_sz == TX_4X4 && is_32_edge {
        TX_8X8
    } else if tx_sz < TX_16X16 {
        tx_sz
    } else {
        TX_16X16
    };
    let last: bool = (pass == 0 && sub_x == 1 && x / 8 == mi_cols - 1) || (pass == 1 && sub_y == 1
        && y / 8 == mi_rows - 1);
    if base_size == TX_16X16 && last {
        TX_8X8
    } else {
        base_size
    }
}

/// A position `k` along or across the edges of a superblock at unit `first`.
proof fn lemma_axis(first: int, sub: int, k: int, across: bool)
    requires
        sub == 0 || sub == 1,
        0 <= first,
        first % 8 == 0,
        0 <= k,
        across && sub == 0 ==> k < 16,
        across && sub == 1 ==> k < 8,
        !across && sub == 0 ==> k < 64,
        !across && sub == 1 ==> k < 32,
    ensures
        ({
            let a = first * 8 + if across {
                k * (4 * unit(sub))
            } else {
                k * unit(sub)
            };
            &&& first * 8 <= a < first * 8 + 64
            &&& a % unit(sub) == 0
            &&& 0 <= first_unit(a, sub) <= a / 8
        }),
{
    if sub == 0 {
        assert(k * (4 * 1) == 4 * k) by (nonlinear_arith);
        assert(k * 1 == k) by (nonlinear_arith);
        let a = first * 8 + if across {
            4 * k
        } else {
            k
        };
        assert(a % 1 == 0);
        assert(a / 8 / 1 * 1 == a / 8);
    } else {
        assert(k * (4 * 2) == 8 * k) by (nonlinear_arith);
        assert(k * 2 == 2 * k) by (nonlinear_arith);
        let a = first * 8 + if across {
            8 * k
        } else {
            2 * k
        };
        assert(a % 2 == 0);
        assert(0 <= a / 8 / 2 * 2 <= a / 8);
    }
}

/// Bounds of the positions of a pass.
#[verifier::spinoff_prover]
proof fn lemma_position_bounds(f: FilterFrame, p: FilterPass, edge: int, i: int)
    requires
        frame_ok(f),
        pass_ok(f, p),
        0 <= edge < edge_count(f, p),
        0 <= i < edge_length(f, p),
    ensures
        p.col * 8 <= luma_x(f, p, edge, i) < p.col * 8 + 64,
        p.row * 8 <= luma_y(f, p, edge, i) < p.row * 8 + 64,
        luma_x(f, p, edge, i) % unit(sub_x_of(f, p)) == 0,
        luma_y(f, p, edge, i) % unit(sub_y_of(f, p)) == 0,
        p.col + 8 <= 8 * superblocks(f.mi_cols as int),
        p.row + 8 <= 8 * superblocks(f.mi_rows as int),
        f.mi_grid.contains(
            first_unit(luma_y(f, p, edge, i), sub_y_of(f, p)),
            first_unit(luma_x(f, p, edge, i), sub_x_of(f, p)),
        ),
        info_ok(f, info_at(f, p, edge, i)),
{
    let sx = sub_x_of(f, p);
    let sy = sub_y_of(f, p);
    assert(16int / 1 == 16 && 16int / 2 == 8 && 64int / 1 == 64 && 64int / 2 == 32);
    assert(sx == 0 || sx == 1);
    assert(sy == 0 || sy == 1);
    if p.pass == 0 {
        lemma_axis(p.col, sx, edge, true);
        lemma_axis(p.row, sy, i, false);
    } else {
        lemma_axis(p.col, sx, i, false);
        lemma_axis(p.row, sy, edge, true);
    }
    let x = luma_x(f, p, edge, i);
    let y = luma_y(f, p, edge, i);
    assert(p.col + 8 <= 8 * superblocks(f.mi_cols as int));
    assert(p.row + 8 <= 8 * superblocks(f.mi_rows as int));
    let r = first_unit(y, sy);
    let c = first_unit(x, sx);
    assert(0 <= r < f.mi_grid.rows && 0 <= c < f.mi_grid.cols);
    assert(info_ok(f, f.mi_grid.at(r, c)));
}

/// Decides where a position lies, whether it is filtered, at which level and
/// with which filter size.
fn edge_position_params(
    f: &FilterFrame,
    lvl_lookup: &LvlLookup,
    plane_idx: usize,
    pass: u32,
    row: u32,
    col: u32,
    edge: u32,
    i: u32,
    Ghost(p): Ghost<FilterPass>,
) -> (t: (u32, u32, bool, i32, u8))
    requires
        frame_ok(*f),
        levels_ok(*lvl_lookup, *f.lf, *f.seg),
        p == (FilterPass {
            plane: plane_idx as int,
            pass: pass as int,
            row: row as int,
            col: col as int,
        }),
        pass_ok(*f, p),
        0 <= edge < edge_count(*f, p),
        0 <= i < edge_length(*f, p),
    ensures
        t.0 == luma_x(*f, p, edge as int, i as int),
        t.1 == luma_y(*f, p, edge as int, i as int),
        t.2 == applies(*f, p, edge as int, i as int),
        t.3 == level_at(*f, p, edge as int, i as int),
        t.4 == filter_size_at(*f, p, edge as int, i as int),
        0 <= t.3 <= 255,
{
    proof {
        lemma_position_bounds(*f, p, edge as int, i as int);
        lemma2_to64();
    }
    let sub_x: u32 = if plane_idx == 0 { 0 } else { f.subsampling_x };
    let sub_y: u32 = if plane_idx == 0 { 0 } else { f.subsampling_y };
    let sub: u32 = if pass == 0 { sub_x } else { sub_y };
    let ux: u32 = if sub_x == 0 { 1 } else { 2 };
    let uy: u32 = if sub_y == 0 { 1 } else { 2 };
    let (x, y): (u32, u32) = if pass == 0 {
        (col * 8 + edge * (4 * ux), row * 8 + i * uy)
    } else {
        (col * 8 + i * ux, row * 8 + edge * (4 * uy))
    };
    let loop_col: u32 = (x / 8) / ux * ux;
    let loop_row: u32 = (y / 8) / uy * uy;
    let mi: &MiInfo = f.mi_grid.get(loop_row, loop_col);
    let tx_sz: u8 = if plane_idx > 0 {
        get_uv_tx_size(mi.mi_size, mi.tx_size, f.subsampling_x, f.subsampling_y)
    } else {
        mi.tx_size
    };
    proof {
        assert(tx_sz <= 3);
    }
    let sb_size: u8 = if sub == 0 || mi.mi_size >= BLOCK_16X16 { mi.mi_size } else { BLOCK_16X16 };
    let ref_frame: u8 = mi.ref_frame[0];
    let is_intra: bool = ref_frame == INTRA_FRAME;
    let is_block_edge: bool = if pass == 0 {
        x % (8 * NUM_8X8_BLOCKS_WIDE_LOOKUP[sb_size as usize] as u32) == 0
    } else {
        y % (8 * NUM_8X8_BLOCKS_HIGH_LOOKUP[sb_size as usize] as u32) == 0
    };
    let tx_len: u32 = power_of_two(tx_sz as u32) as u32;
    let is_tx_edge: bool = if pass == 1 && sub_x == 1 && f.mi_cols % 2 == 1 && edge % 2 == 1 && x + 8
        >= f.mi_cols * 8 {
        false
    } else {
        edge % tx_len == 0
    };
    let is_32_edge: bool = edge % 8 == 0;
    let on_screen: bool = !(x >= 8 * f.mi_cols || y >= 8 * f.mi_rows || (pass == 0 && x == 0) || (pass
        == 1 && y == 0));
    let apply_filter: bool = on_screen && (is_block_edge || (is_tx_edge && (is_intra || !mi.skip)));
    let filter_size: u8 = filter_size_process(
        tx_sz,
        is_32_edge,
        pass,
        x,
        y,
        sub_x,
        sub_y,
        f.mi_cols,
        f.mi_rows,
        Ghost(*f),
        Ghost(p),
        Ghost(edge as int),
        Ghost(i as int),
    );
    let mode_type: usize = if mi.y_mode == NEARESTMV || mi.y_mode == NEARMV || mi.y_mode == NEWMV {
        1
    } else {
        0
    };
    let lvl: i32 = lvl_lookup[mi.segment_id as usize][ref_frame as usize][mode_type];
    proof {
        lemma_filter_level_range(
            *f.lf,
            *f.seg,
            mi.segment_id as int,
            ref_frame as int,
            mode_type as int,
        );
    }
    (x, y, apply_filter, lvl, filter_size)
}

/// Where a filtered position lies across its edge, in samples: at least 4 into
/// the plane and 4 from the end of the superblock; at least 8 for the largest
/// filter. `origin` is where the superblock starts, `u` the subsampling factor.
proof fn lemma_across(origin: int, u: int, edge: int, at: int, len: int, tx: u8, by_block: bool)
    requires
        origin % 64 == 0,
        origin >= 0,
        u == 1 || u == 2,
        0 <= edge < 16int / u,
        at == origin + edge * (4 * u),
        at != 0,
        len == 1 || len == 2 || len == 4 || len == 8,
        u == 2 ==> len != 1,
        by_block ==> at % (8 * len) == 0,
        !by_block ==> edge % tx_units(tx) == 0,
        tx <= 3,
    ensures
        at / u >= 4,
        at / u + 4 <= (origin + 64) / u,
        tx >= 2 ==> at / u >= 8 && at / u + 8 <= (origin + 64) / u,
{
    lemma2_to64();
    if u == 1 {
        assert(edge * (4 * u) == 4 * edge) by (nonlinear_arith)
            requires
                u == 1,
        ;
    } else {
        assert(edge * (4 * u) == 8 * edge) by (nonlinear_arith)
            requires
                u == 2,
        ;
    }
    if by_block {
        if len == 1 {
            assert(at % 8 == 0);
        } else if len == 2 {
            assert(at % 16 == 0);
        } else if len == 4 {
            assert(at % 32 == 0);
        } else {
            assert(at % 64 == 0);
        }
    } else if tx == 2 {
        assert(edge % 4 == 0);
    } else if tx == 3 {
        assert(edge % 8 == 0);
    }
}

/// The taps of a filtered position lie in the plane.
proof fn lemma_position_window(f: FilterFrame, p: FilterPass, pl: Plane, edge: int, i: int)
    requires
        frame_ok(f),
        pass_ok(f, p),
        plane_ok(f, p.plane, pl),
        0 <= edge < edge_count(f, p),
        0 <= i < edge_length(f, p),
        applies(f, p, edge, i),
    ensures
        ({
            let x = luma_x(f, p, edge, i) / unit(sub_x_of(f, p));
            let y = luma_y(f, p, edge, i) / unit(sub_y_of(f, p));
            let dx = 1 - p.pass;
            let dy = p.pass;
            &&& window_in(pl, x, y, dx, dy, -4, 3)
            &&& filter_size_at(f, p, edge, i) >= TX_16X16 ==> window_in(pl, x, y, dx, dy, -8, 7)
        }),
{
    lemma_position_bounds(f, p, edge, i);
    let m = info_at(f, p, edge, i);
    let tx = plane_tx_size(f, p, m);
    let size = edge_block_size(f, p, m) as int;
    let ux = unit(sub_x_of(f, p));
    let uy = unit(sub_y_of(f, p));
    let x = luma_x(f, p, edge, i);
    let y = luma_y(f, p, edge, i);
    assert(tx <= 3);
    let by_block = at_block_edge(f, p, edge, i);
    if p.pass == 0 {
        let len = NUM_8X8_BLOCKS_WIDE_LOOKUP[size] as int;
        assert(len == 1 || len == 2 || len == 4 || len == 8);
        assert(ux == 2 ==> len != 1);
        lemma_across(p.col * 8, ux, edge, x, len, tx, by_block);
        assert((p.col * 8 + 64) / ux <= 64 * superblocks(f.mi_cols as int) / ux);
        assert(0 <= y / uy < 64 * superblocks(f.mi_rows as int) / uy);
    } else {
        let len = NUM_8X8_BLOCKS_HIGH_LOOKUP[size] as int;
        assert(len == 1 || len == 2 || len == 4 || len == 8);
        assert(uy == 2 ==> len != 1);
        lemma_across(p.row * 8, uy, edge, y, len, tx, by_block);
        assert((p.row * 8 + 64) / uy <= 64 * superblocks(f.mi_rows as int) / uy);
        assert(0 <= x / ux < 64 * superblocks(f.mi_cols as int) / ux);
    }
}

/// Filters the edges of one pass over a superblock of a plane.
fn superblock_loop_filter(
    plane: &mut Plane,
    f: &FilterFrame,
    lvl_lookup: &LvlLookup,
    plane_idx: usize,
    pass: u32,
    row: u32,
    col: u32,
)
    requires
        frame_ok(*f),
        levels_ok(*lvl_lookup, *f.lf, *f.seg),
        pass_ok(
            *f,
            (FilterPass {
                plane: plane_idx as int,
                pass: pass as int,
                row: row as int,
                col: col as int,
            }),
        ),
        plane_ok(*f, plane_idx as int, *old(plane)),
    ensures
        plane_ok(*f, plane_idx as int, *final(plane)),
        final(plane).same_shape(old(plane)),
        final(plane).samples() == pass_done(
            *f,
            (FilterPass {
                plane: plane_idx as int,
                pass: pass as int,
                row: row as int,
                col: col as int,
            }),
            old(plane).width as int,
            old(plane).samples(),
        ),
{
    let ghost p = FilterPass {
        plane: plane_idx as int,
        pass: pass as int,
        row: row as int,
        col: col as int,
    };
    let ghost before = *plane;
    let ghost w = plane.width as int;
    let sub_x: u32 = if plane_idx == 0 { 0 } else { f.subsampling_x };
    let sub_y: u32 = if plane_idx == 0 { 0 } else { f.subsampling_y };
    let ux: u32 = if sub_x == 0 { 1 } else { 2 };
    let uy: u32 = if sub_y == 0 { 1 } else { 2 };
    let dx: i64 = if pass == 0 { 1 } else { 0 };
    let dy: i64 = if pass == 0 { 0 } else { 1 };
    let num_edges: u32 = if pass == 0 { 16 / ux } else { 16 / uy };
    let edge_len: u32 = if pass == 0 { 64 / uy } else { 64 / ux };
    for edge in 0..num_edges
        invariant
            frame_ok(*f),
            levels_ok(*lvl_lookup, *f.lf, *f.seg),
            p == (FilterPass {
                plane: plane_idx as int,
                pass: pass as int,
                row: row as int,
                col: col as int,
            }),
            pass_ok(*f, p),
            plane_ok(*f, plane_idx as int, *plane),
            plane.same_shape(&before),
            w == before.width,
            ux == unit(sub_x_of(*f, p)),
            uy == unit(sub_y_of(*f, p)),
            dx == 1 - pass,
            dy == pass,
            num_edges == edge_count(*f, p),
            edge_len == edge_length(*f, p),
            plane.samples() == edges_done(*f, p, w, before.samples(), edge as nat),
    {
        let ghost start = plane.samples();
        for i in 0..edge_len
            invariant
                frame_ok(*f),
                levels_ok(*lvl_lookup, *f.lf, *f.seg),
                p == (FilterPass {
                    plane: plane_idx as int,
                    pass: pass as int,
                    row: row as int,
                    col: col as int,
                }),
                pass_ok(*f, p),
                plane_ok(*f, plane_idx as int, *plane),
                plane.same_shape(&before),
                w == before.width,
                ux == unit(sub_x_of(*f, p)),
                uy == unit(sub_y_of(*f, p)),
                dx == 1 - pass,
                dy == pass,
                0 <= edge < edge_count(*f, p),
                edge_len == edge_length(*f, p),
                plane.samples() == edge_done(*f, p, w, start, edge as int, i as nat),
        {
            let (x, y, apply_filter, lvl, filter_size) = edge_position_params(
                f,
                lvl_lookup,
                plane_idx,
                pass,
                row,
                col,
                edge,
                i,
                Ghost(p),
            );
            if apply_filter && lvl > 0 {
                proof {
                    lemma_position_window(*f, p, *plane, edge as int, i as int);
                }
                let (limit, blimit, thresh) = adaptive_filter_strength(
                    lvl,
                    f.lf.sharpness,
                    f.bit_depth,
                );
                proof {
                    assert(stride_of(*plane, dx as int, dy as int) == if pass == 0 { 1 } else { w }) by {
                        if pass == 0 {
                            assert(0 * w == 0);
                        } else {
                            assert(1 * w == w);
                        }
                    }
                }
                sample_filtering(
                    plane,
                    (x / ux) as usize,
                    (y / uy) as usize,
                    dx,
                    dy,
                    limit,
                    blimit,
                    thresh,
                    filter_size,
                    f.bit_depth,
                );
            }
        }
    }
}

/// Filters a plane, superblock by superblock.
fn filter_plane(plane: &mut Plane, f: &FilterFrame, lvl_lookup: &LvlLookup, plane_idx: usize)
    requires
        frame_ok(*f),
        levels_ok(*lvl_lookup, *f.lf, *f.seg),
        plane_idx < 3,
        plane_ok(*f, plane_idx as int, *old(plane)),
    ensures
        final(plane).wf(),
        final(plane).same_shape(old(plane)),
        final(plane).samples() == plane_filtered(
            *f,
            plane_idx as int,
            old(plane).width as int,
            old(plane).samples(),
        ),
{
    let ghost before = *plane;
    let ghost w = plane.width as int;
    let sb_cols: u32 = (f.mi_cols + 7) / 8;
    let sb_rows: u32 = (f.mi_rows + 7) / 8;
    assert(0 * sb_cols == 0) by (nonlinear_arith);
    for r in 0..sb_rows
        invariant
            frame_ok(*f),
            levels_ok(*lvl_lookup, *f.lf, *f.seg),
            plane_idx < 3,
            sb_cols == superblocks(f.mi_cols as int),
            sb_rows == superblocks(f.mi_rows as int),
            plane_ok(*f, plane_idx as int, *plane),
            plane.same_shape(&before),
            w == before.width,
            plane.samples() == superblocks_done(
                *f,
                plane_idx as int,
                w,
                before.samples(),
                (r * sb_cols) as nat,
            ),
    {
        for c in 0..sb_cols
            invariant
                frame_ok(*f),
                levels_ok(*lvl_lookup, *f.lf, *f.seg),
                plane_idx < 3,
                sb_cols == superblocks(f.mi_cols as int),
                sb_rows == superblocks(f.mi_rows as int),
                r < sb_rows,
                plane_ok(*f, plane_idx as int, *plane),
                plane.same_shape(&before),
                w == before.width,
                0 <= r * sb_cols,
                plane.samples() == superblocks_done(
                    *f,
                    plane_idx as int,
                    w,
                    before.samples(),
                    (r * sb_cols + c) as nat,
                ),
        {
            proof {
                vstd::arithmetic::div_mod::lemma_fundamental_div_mod_converse(
                    r * sb_cols + c,
                    sb_cols as int,
                    r as int,
                    c as int,
                );
            }
            superblock_loop_filter(plane, f, lvl_lookup, plane_idx, 0, 8 * r, 8 * c);
            superblock_loop_filter(plane, f, lvl_lookup, plane_idx, 1, 8 * r, 8 * c);
        }
        proof {
            assert((r + 1) * sb_cols == r * sb_cols + sb_cols) by (nonlinear_arith);
        }
    }
}

/// Filters a frame. `planes` are its three planes, which cover whole
/// superblocks; `mi_cols` and `mi_rows` are the frame's size in units.
pub fn loop_filter_frame(
    planes: &mut [Plane; 3],
    mi_grid: &MiGrid,
    mi_cols: u32,
    mi_rows: u32,
    subsampling_x: u32,
    subsampling_y: u32,
    lf: &LoopFilterParams,
    seg: &SegmentationParams,
    bit_depth: u8,
)
    requires
        frame_ok(
            (FilterFrame {
                mi_grid,
                mi_cols,
                mi_rows,
                subsampling_x,
                subsampling_y,
                lf,
                seg,
                bit_depth,
            }),
        ),
        forall|p: int|
            0 <= p < 3 ==> plane_ok(
                (FilterFrame {
                    mi_grid,
                    mi_cols,
                    mi_rows,
                    subsampling_x,
                    subsampling_y,
                    lf,
                    seg,
                    bit_depth,
                }),
                p,
                #[trigger] old(planes)[p],
            ),
    ensures
        forall|p: int|
            0 <= p < 3 ==> {
                &&& (#[trigger] final(planes)[p]).wf()
                &&& final(planes)[p].same_shape(&old(planes)[p])
                &&& final(planes)[p].samples() == plane_filtered(
                    (FilterFrame {
                        mi_grid,
                        mi_cols,
                        mi_rows,
                        subsampling_x,
                        subsampling_y,
                        lf,
                        seg,
                        bit_depth,
                    }),
                    p,
                    old(planes)[p].width as int,
                    old(planes)[p].samples(),
                )
            },
{
    let lvl_lookup: LvlLookup = build_lvl_lookup(lf, seg);
    let f = FilterFrame {
        mi_grid,
        mi_cols,
        mi_rows,
        subsampling_x,
        subsampling_y,
        lf,
        seg,
        bit_depth,
    };
    filter_plane(&mut planes[0], &f, &lvl_lookup, 0);
    filter_plane(&mut planes[1], &f, &lvl_lookup, 1);
    filter_plane(&mut planes[2], &f, &lvl_lookup, 2);
}

} // verus!
