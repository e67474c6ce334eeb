//! What holds of the loop filter as a whole.

use vstd::arithmetic::power2::{lemma2_to64, lemma_pow2_pos, pow2};
use vstd::prelude::*;
use crate::common::{spec_clip3, spec_round2};
use crate::framebuffer::{row_major, Plane};
use crate::prob_tables::TX_16X16;
use super::{
    applies, base_of, depth_scale, edge_count, edge_done, edge_filtered, edge_length, edges_done,
    filter_level, filter_size_at, frame_ok, high_variance, lemma_position_window, lemma_tap_index,
    luma_x, luma_y, narrow_filtered, pass_ok, plane_filtered, plane_ok, position_filtered,
    stride_of, sub_x_of, sub_y_of, superblocks, superblocks_done, tap, taps_in, unit, wide_value,
    wide_written, window_sum, FilterFrame, FilterPass,
};

verus! {

// ---------------------------------------------------------------------------
// Single positions.
// ---------------------------------------------------------------------------

/// The taps that a filter of the given size looks at lie in the buffer.
pub open spec fn window_ok(s: Seq<u16>, base: int, stride: int, filter_size: u8) -> bool {
    &&& taps_in(s, base, stride, -4, 3)
    &&& filter_size >= TX_16X16 ==> taps_in(s, base, stride, -8, 7)
}

proof fn lemma_constant_window_sum(
    s: Seq<u16>,
    base: int,
    stride: int,
    n: int,
    i: int,
    count: nat,
    v: int,
)
    requires
        n >= 0,
        forall|k: int| -(n + 1) <= k <= n ==> #[trigger] tap(s, base, stride, k) == v,
    ensures
        window_sum(s, base, stride, n, i, count) == count * v,
    decreases count,
{
    if count > 0 {
        lemma_constant_window_sum(s, base, stride, n, i, (count - 1) as nat, v);
        assert((count - 1) * v + v == count * v) by (nonlinear_arith);
    } else {
        assert(0 * v == 0);
    }
}

proof fn lemma_constant_wide(
    s: Seq<u16>,
    base: int,
    stride: int,
    log2_size: nat,
    count: nat,
    v: u16,
)
    requires
        log2_size == 3 || log2_size == 4,
        count <= 2 * (pow2((log2_size - 1) as nat) - 1),
        taps_in(
            s,
            base,
            stride,
            -(pow2((log2_size - 1) as nat) as int),
            pow2((log2_size - 1) as nat) - 1,
        ),
        forall|k: int|
            -(pow2((log2_size - 1) as nat) as int) <= k < pow2((log2_size - 1) as nat)
                ==> #[trigger] tap(s, base, stride, k) == v,
    ensures
        wide_written(s, base, stride, log2_size, count) == s,
    decreases count,
{
    lemma2_to64();
    if count > 0 {
        lemma_constant_wide(s, base, stride, log2_size, (count - 1) as nat, v);
        let n = pow2((log2_size - 1) as nat) - 1;
        let i = count - 1 - n;
        lemma_constant_window_sum(s, base, stride, n, i, (2 * n + 1) as nat, v as int);
        assert(tap(s, base, stride, i) == v);
        let sum = window_sum(s, base, stride, n, i, (2 * n + 1) as nat);
        if log2_size == 3 {
            assert(sum == 7 * v);
            assert((8 * v + 4) / 8 == v);
        } else {
            assert(sum == 15 * v);
            assert((16 * v + 8) / 16 == v);
        }
        assert(wide_value(s, base, stride, log2_size, i) == v);
        assert(0 <= base + stride * i < s.len());
        assert(s.update(base + stride * i, v) =~= s);
    }
}

/// All samples are `v`.
pub open spec fn samples_equal(s: Seq<u16>, v: u16) -> bool {
    forall|i: int| 0 <= i < s.len() ==> #[trigger] s[i] == v
}

/// Filtering leaves constant samples as they are, whatever the strengths and
/// the filter size.
pub proof fn lemma_constant_samples_unchanged(
    s: Seq<u16>,
    base: int,
    stride: int,
    strengths: (int, int, int),
    filter_size: u8,
    bit_depth: int,
    v: u16,
)
    requires
        8 <= bit_depth <= 16,
        v < 256 * depth_scale(bit_depth),
        window_ok(s, base, stride, filter_size),
        forall|k: int|
            (if filter_size >= TX_16X16 {
                -8int
            } else {
                -4
            }) <= k <= (if filter_size >= TX_16X16 {
                7int
            } else {
                3
            }) ==> #[trigger] tap(s, base, stride, k) == v,
    ensures
        edge_filtered(s, base, stride, strengths, filter_size, bit_depth) == s,
{
    lemma2_to64();
    lemma_pow2_pos((bit_depth - 8) as nat);
    lemma_constant_wide(s, base, stride, 3, 6, v);
    if filter_size >= TX_16X16 {
        lemma_constant_wide(s, base, stride, 4, 14, v);
    }
    let hev = high_variance(s, base, stride, strengths.2);
    assert(0 <= base + stride * 0 < s.len());
    assert(0 <= base + stride * 1 < s.len());
    assert(0 <= base + stride * (-1) < s.len());
    assert(0 <= base + stride * (-2) < s.len());
    assert(tap(s, base, stride, -2) == v && tap(s, base, stride, -1) == v);
    assert(tap(s, base, stride, 0) == v && tap(s, base, stride, 1) == v);
    assert(base + stride * (-2) == base - 2 * stride) by (nonlinear_arith);
    assert(s.update(base, v) =~= s);
    assert(s.update(base - stride, v) =~= s);
    assert(s.update(base + stride, v) =~= s);
    assert(s.update(base - 2 * stride, v) =~= s);
    assert(spec_round2(0, 1) == 0);
    assert(narrow_filtered(s, base, stride, hev, bit_depth) == s);
}

/// All samples are below `bound`.
pub open spec fn samples_below(s: Seq<u16>, bound: int) -> bool {
    forall|i: int| 0 <= i < s.len() ==> #[trigger] s[i] < bound
}

proof fn lemma_window_sum_below(
    s: Seq<u16>,
    base: int,
    stride: int,
    n: int,
    i: int,
    count: nat,
    bound: int,
)
    requires
        n >= 0,
        taps_in(s, base, stride, -(n + 1), n),
        samples_below(s, bound),
    ensures
        0 <= window_sum(s, base, stride, n, i, count) <= count * (bound - 1),
    decreases count,
{
    if count > 0 {
        lemma_window_sum_below(s, base, stride, n, i, (count - 1) as nat, bound);
        let k = spec_clip3(-(n + 1), n, i - n + count - 1);
        assert(0 <= base + stride * k < s.len());
        assert(tap(s, base, stride, k) == s[base + stride * k]);
        assert((count - 1) * (bound - 1) + (bound - 1) == count * (bound - 1)) by (nonlinear_arith);
    } else {
        assert(0 * (bound - 1) == 0);
    }
}

proof fn lemma_wide_below(
    s: Seq<u16>,
    base: int,
    stride: int,
    log2_size: nat,
    count: nat,
    bound: int,
)
    requires
        log2_size == 3 || log2_size == 4,
        count <= 2 * (pow2((log2_size - 1) as nat) - 1),
        taps_in(
            s,
            base,
            stride,
            -(pow2((log2_size - 1) as nat) as int),
            pow2((log2_size - 1) as nat) - 1,
        ),
        samples_below(s, bound),
    ensures
        wide_written(s, base, stride, log2_size, count).len() == s.len(),
        samples_below(wide_written(s, base, stride, log2_size, count), bound),
    decreases count,
{
    lemma2_to64();
    if count > 0 {
        lemma_wide_below(s, base, stride, log2_size, (count - 1) as nat, bound);
        let n = pow2((log2_size - 1) as nat) - 1;
        let i = count - 1 - n;
        lemma_window_sum_below(s, base, stride, n, i, (2 * n + 1) as nat, bound);
        assert(0 <= base + stride * i < s.len());
        assert(0 <= tap(s, base, stride, i) < bound);
        let sum = window_sum(s, base, stride, n, i, (2 * n + 1) as nat);
        if log2_size == 3 {
            assert(sum <= 7 * (bound - 1));
        } else {
            assert(sum <= 15 * (bound - 1));
        }
        assert(0 <= wide_value(s, base, stride, log2_size, i) < bound);
    }
}

#[verifier::spinoff_prover]
proof fn lemma_narrow_below(s: Seq<u16>, base: int, stride: int, hev: bool, bit_depth: int)
    requires
        1 <= depth_scale(bit_depth) <= 256,
        taps_in(s, base, stride, -4, 3),
        samples_below(s, 256 * depth_scale(bit_depth)),
    ensures
        narrow_filtered(s, base, stride, hev, bit_depth).len() == s.len(),
        samples_below(
            narrow_filtered(s, base, stride, hev, bit_depth),
            256 * depth_scale(bit_depth),
        ),
{
    let half = 128 * depth_scale(bit_depth);
    assert forall|x: int| 0 <= #[trigger] spec_clip3(-half, half - 1, x) + half < 2 * half by {}
    assert(0 <= base + stride * 0 < s.len());
    assert(0 <= base + stride * 1 < s.len());
    assert(0 <= base + stride * (-1) < s.len());
    assert(0 <= base + stride * (-2) < s.len());
    assert(base + stride * (-2) == base - 2 * stride) by (nonlinear_arith);
}

/// Filtering keeps samples within the range of the bit depth.
#[verifier::spinoff_prover]
pub proof fn lemma_filtering_keeps_range(
    s: Seq<u16>,
    base: int,
    stride: int,
    strengths: (int, int, int),
    filter_size: u8,
    bit_depth: int,
)
    requires
        8 <= bit_depth <= 16,
        window_ok(s, base, stride, filter_size),
        samples_below(s, 256 * depth_scale(bit_depth)),
    ensures
        edge_filtered(s, base, stride, strengths, filter_size, bit_depth).len() == s.len(),
        samples_below(
            edge_filtered(s, base, stride, strengths, filter_size, bit_depth),
            256 * depth_scale(bit_depth),
        ),
{
    lemma2_to64();
    let bound = 256 * depth_scale(bit_depth);
    assert(1 <= depth_scale(bit_depth) <= 256) by {
        assert(bit_depth == 8 || bit_depth == 9 || bit_depth == 10 || bit_depth == 11 || bit_depth
            == 12 || bit_depth == 13 || bit_depth == 14 || bit_depth == 15 || bit_depth == 16);
    }
    lemma_wide_below(s, base, stride, 3, 6, bound);
    if filter_size >= TX_16X16 {
        lemma_wide_below(s, base, stride, 4, 14, bound);
    }
    lemma_narrow_below(
        s,
        base,
        stride,
        high_variance(s, base, stride, strengths.2),
        bit_depth,
    );
}

// ---------------------------------------------------------------------------
// Whole planes.
// ---------------------------------------------------------------------------

proof fn lemma_level_zero_edge(
    f: FilterFrame,
    p: FilterPass,
    width: int,
    s: Seq<u16>,
    edge: int,
    n: nat,
)
    requires
        forall|sg: int, r: int, m: int| filter_level(*f.lf, *f.seg, sg, r, m) == 0,
    ensures
        edge_done(f, p, width, s, edge, n) == s,
    decreases n,
{
    if n > 0 {
        lemma_level_zero_edge(f, p, width, s, edge, (n - 1) as nat);
    }
}

proof fn lemma_level_zero_edges(f: FilterFrame, p: FilterPass, width: int, s: Seq<u16>, n: nat)
    requires
        forall|sg: int, r: int, m: int| filter_level(*f.lf, *f.seg, sg, r, m) == 0,
    ensures
        edges_done(f, p, width, s, n) == s,
    decreases n,
{
    if n > 0 {
        lemma_level_zero_edges(f, p, width, s, (n - 1) as nat);
        lemma_level_zero_edge(f, p, width, s, n - 1, edge_length(f, p) as nat);
    }
}

proof fn lemma_level_zero_superblocks(f: FilterFrame, plane: int, width: int, s: Seq<u16>, n: nat)
    requires
        forall|sg: int, r: int, m: int| filter_level(*f.lf, *f.seg, sg, r, m) == 0,
    ensures
        superblocks_done(f, plane, width, s, n) == s,
    decreases n,
{
    if n > 0 {
        lemma_level_zero_superblocks(f, plane, width, s, (n - 1) as nat);
        let k = n - 1;
        let row = 8 * (k / superblocks(f.mi_cols as int));
        let col = 8 * (k % superblocks(f.mi_cols as int));
        let p0 = FilterPass { plane, pass: 0, row, col };
        let p1 = FilterPass { plane, pass: 1, row, col };
        lemma_level_zero_edges(f, p0, width, s, edge_count(f, p0) as nat);
        lemma_level_zero_edges(f, p1, width, s, edge_count(f, p1) as nat);
    }
}

/// A frame of level 0, without deltas and without segments that change it, is
/// left as it is.
pub proof fn lemma_level_zero_unchanged(f: FilterFrame, plane: int, width: int, s: Seq<u16>)
    requires
        f.lf.level == 0,
        !f.lf.delta_enabled,
        !f.seg.enabled,
    ensures
        plane_filtered(f, plane, width, s) == s,
{
    lemma_level_zero_superblocks(
        f,
        plane,
        width,
        s,
        (superblocks(f.mi_rows as int) * superblocks(f.mi_cols as int)) as nat,
    );
}

/// The property holds after filtering at a position wherever it held before.
pub open spec fn kept_by_filtering(keep: spec_fn(Seq<u16>) -> bool, bit_depth: int) -> bool {
    forall|s: Seq<u16>, base: int, stride: int, strengths: (int, int, int), filter_size: u8|
        keep(s) && window_ok(s, base, stride, filter_size) ==> {
            let t = #[trigger] edge_filtered(s, base, stride, strengths, filter_size, bit_depth);
            t.len() == s.len() && keep(t)
        }
}

proof fn lemma_position_keeps(
    f: FilterFrame,
    p: FilterPass,
    pl: Plane,
    s: Seq<u16>,
    edge: int,
    i: int,
    keep: spec_fn(Seq<u16>) -> bool,
)
    requires
        frame_ok(f),
        pass_ok(f, p),
        plane_ok(f, p.plane, pl),
        0 <= edge < edge_count(f, p),
        0 <= i < edge_length(f, p),
        s.len() == pl.samples().len(),
        keep(s),
        kept_by_filtering(keep, f.bit_depth as int),
    ensures
        position_filtered(f, p, pl.width as int, s, edge, i).len() == s.len(),
        keep(position_filtered(f, p, pl.width as int, s, edge, i)),
{
    if applies(f, p, edge, i) {
        lemma_position_window(f, p, pl, edge, i);
        let x = luma_x(f, p, edge, i) / unit(sub_x_of(f, p));
        let y = luma_y(f, p, edge, i) / unit(sub_y_of(f, p));
        let dx = 1 - p.pass;
        let dy = p.pass;
        let w = pl.width as int;
        let base = row_major(w, x, y);
        let stride = if p.pass == 0 {
            1
        } else {
            w
        };
        assert(base == base_of(pl, x, y));
        assert(stride == stride_of(pl, dx, dy)) by {
            assert(0 * w == 0 && 1 * w == w);
        }
        let size = filter_size_at(f, p, edge, i);
        assert forall|k: int| -4 <= k <= 3 implies 0 <= #[trigger] (base + stride * k) < s.len() by {
            lemma_tap_index(pl, x, y, dx, dy, -4, 3, k);
        }
        if size >= TX_16X16 {
            assert forall|k: int| -8 <= k <= 7 implies 0 <= #[trigger] (base + stride * k)
                < s.len() by {
                lemma_tap_index(pl, x, y, dx, dy, -8, 7, k);
            }
        }
        assert(window_ok(s, base, stride, size));
    }
}

proof fn lemma_edge_keeps(
    f: FilterFrame,
    p: FilterPass,
    pl: Plane,
    s: Seq<u16>,
    edge: int,
    n: nat,
    keep: spec_fn(Seq<u16>) -> bool,
)
    requires
        frame_ok(f),
        pass_ok(f, p),
        plane_ok(f, p.plane, pl),
        0 <= edge < edge_count(f, p),
        n <= edge_length(f, p),
        s.len() == pl.samples().len(),
        keep(s),
        kept_by_filtering(keep, f.bit_depth as int),
    ensures
        edge_done(f, p, pl.width as int, s, edge, n).len() == s.len(),
        keep(edge_done(f, p, pl.width as int, s, edge, n)),
    decreases n,
{
    if n > 0 {
        lemma_edge_keeps(f, p, pl, s, edge, (n - 1) as nat, keep);
        let before = edge_done(f, p, pl.width as int, s, edge, (n - 1) as nat);
        lemma_position_keeps(f, p, pl, before, edge, n - 1, keep);
    }
}

proof fn lemma_edges_keep(
    f: FilterFrame,
    p: FilterPass,
    pl: Plane,
    s: Seq<u16>,
    n: nat,
    keep: spec_fn(Seq<u16>) -> bool,
)
    requires
        frame_ok(f),
        pass_ok(f, p),
        plane_ok(f, p.plane, pl),
        n <= edge_count(f, p),
        s.len() == pl.samples().len(),
        keep(s),
        kept_by_filtering(keep, f.bit_depth as int),
    ensures
        edges_done(f, p, pl.width as int, s, n).len() == s.len(),
        keep(edges_done(f, p, pl.width as int, s, n)),
    decreases n,
{
    if n > 0 {
        lemma_edges_keep(f, p, pl, s, (n - 1) as nat, keep);
        let before = edges_done(f, p, pl.width as int, s, (n - 1) as nat);
        lemma_edge_keeps(f, p, pl, before, n - 1, edge_length(f, p) as nat, keep);
    }
}

proof fn lemma_superblocks_keep(
    f: FilterFrame,
    plane: int,
    pl: Plane,
    s: Seq<u16>,
    n: nat,
    keep: spec_fn(Seq<u16>) -> bool,
)
    requires
        frame_ok(f),
        0 <= plane < 3,
        plane_ok(f, plane, pl),
        n <= superblocks(f.mi_rows as int) * superblocks(f.mi_cols as int),
        s.len() == pl.samples().len(),
        keep(s),
        kept_by_filtering(keep, f.bit_depth as int),
    ensures
        superblocks_done(f, plane, pl.width as int, s, n).len() == s.len(),
        keep(superblocks_done(f, plane, pl.width as int, s, n)),
    decreases n,
{
    if n > 0 {
        lemma_superblocks_keep(f, plane, pl, s, (n - 1) as nat, keep);
        let k = n - 1;
        let rows = superblocks(f.mi_rows as int);
        let cols = superblocks(f.mi_cols as int);
        assert(cols > 0) by (nonlinear_arith)
            requires
                0 < rows * cols,
                0 <= rows,
                0 <= cols,
        ;
        assert(0 <= k / cols < rows) by (nonlinear_arith)
            requires
                0 <= k < rows * cols,
                cols > 0,
        ;
        let row = 8 * (k / cols);
        let col = 8 * (k % cols);
        let p0 = FilterPass { plane, pass: 0, row, col };
        let p1 = FilterPass { plane, pass: 1, row, col };
        assert(0 <= k % cols < cols);
        assert(pass_ok(f, p0) && pass_ok(f, p1));
        let w = pl.width as int;
        let before = superblocks_done(f, plane, w, s, (n - 1) as nat);
        lemma_edges_keep(f, p0, pl, before, edge_count(f, p0) as nat, keep);
        let vertical = edges_done(f, p0, w, before, edge_count(f, p0) as nat);
        lemma_edges_keep(f, p1, pl, vertical, edge_count(f, p1) as nat, keep);
    }
}

/// What every single filtering keeps, filtering a whole plane keeps.
pub proof fn lemma_plane_keeps(
    f: FilterFrame,
    plane: int,
    pl: Plane,
    keep: spec_fn(Seq<u16>) -> bool,
)
    requires
        frame_ok(f),
        0 <= plane < 3,
        plane_ok(f, plane, pl),
        keep(pl.samples()),
        kept_by_filtering(keep, f.bit_depth as int),
    ensures
        plane_filtered(f, plane, pl.width as int, pl.samples()).len() == pl.samples().len(),
        keep(plane_filtered(f, plane, pl.width as int, pl.samples())),
{
    let n = superblocks(f.mi_rows as int) * superblocks(f.mi_cols as int);
    assert(0 <= n) by (nonlinear_arith)
        requires
            n == superblocks(f.mi_rows as int) * superblocks(f.mi_cols as int),
            0 <= superblocks(f.mi_rows as int),
            0 <= superblocks(f.mi_cols as int),
    ;
    lemma_superblocks_keep(f, plane, pl, pl.samples(), n as nat, keep);
}

/// Filtering a plane keeps its samples within the range of the bit depth.
pub proof fn lemma_plane_keeps_range(f: FilterFrame, plane: int, pl: Plane)
    requires
        frame_ok(f),
        0 <= plane < 3,
        plane_ok(f, plane, pl),
        samples_below(pl.samples(), 256 * depth_scale(f.bit_depth as int)),
    ensures
        samples_below(
            plane_filtered(f, plane, pl.width as int, pl.samples()),
            256 * depth_scale(f.bit_depth as int),
        ),
{
    let bound = 256 * depth_scale(f.bit_depth as int);
    let keep = |s: Seq<u16>| samples_below(s, bound);
    assert forall|s: Seq<u16>, base: int, stride: int, strengths: (int, int, int), filter_size: u8|
        keep(s) && window_ok(s, base, stride, filter_size) implies ({
        let t = #[trigger] edge_filtered(
            s,
            base,
            stride,
            strengths,
            filter_size,
            f.bit_depth as int,
        );
        t.len() == s.len() && keep(t)
    }) by {
        lemma_filtering_keeps_range(s, base, stride, strengths, filter_size, f.bit_depth as int);
    }
    lemma_plane_keeps(f, plane, pl, keep);
}

/// Filtering leaves a plane of one colour as it is.
pub proof fn lemma_constant_plane_unchanged(f: FilterFrame, plane: int, pl: Plane, v: u16)
    requires
        frame_ok(f),
        0 <= plane < 3,
        plane_ok(f, plane, pl),
        v < 256 * depth_scale(f.bit_depth as int),
        samples_equal(pl.samples(), v),
    ensures
        plane_filtered(f, plane, pl.width as int, pl.samples()) == pl.samples(),
{
    let keep = |s: Seq<u16>| samples_equal(s, v);
    assert forall|s: Seq<u16>, base: int, stride: int, strengths: (int, int, int), filter_size: u8|
        keep(s) && window_ok(s, base, stride, filter_size) implies ({
        let t = #[trigger] edge_filtered(
            s,
            base,
            stride,
            strengths,
            filter_size,
            f.bit_depth as int,
        );
        t.len() == s.len() && keep(t)
    }) by {
        let lo = if filter_size >= TX_16X16 {
            -8int
        } else {
            -4
        };
        let hi = if filter_size >= TX_16X16 {
            7int
        } else {
            3
        };
        assert forall|k: int| lo <= k <= hi implies #[trigger] tap(s, base, stride, k) == v by {
            assert(0 <= base + stride * k < s.len());
        }
        lemma_constant_samples_unchanged(
            s,
            base,
            stride,
            strengths,
            filter_size,
            f.bit_depth as int,
            v,
        );
    }
    lemma_plane_keeps(f, plane, pl, keep);
    assert(plane_filtered(f, plane, pl.width as int, pl.samples()) =~= pl.samples());
}

} // verus!
