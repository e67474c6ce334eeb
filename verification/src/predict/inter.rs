//! Inter prediction: motion vectors are selected, limited and scaled, and the
//! reference frame is interpolated at the position that they point to.

use vstd::arithmetic::div_mod::{
    lemma_div_is_ordered, lemma_fundamental_div_mod, lemma_fundamental_div_mod_converse,
};
use vstd::arithmetic::power2::{lemma2_to64, lemma_pow2_pos, pow2};
use vstd::prelude::*;
use crate::common::{clip3, floor_div, power_of_two, round2, spec_clip3, spec_round2, INTRA_FRAME};
use crate::framebuffer::Plane;
use crate::mv::Mv;
use crate::predict::block_replaced;
use crate::prob_tables::{BLOCK_8X8, NUM_8X8_BLOCKS_HIGH_LOOKUP, NUM_8X8_BLOCKS_WIDE_LOOKUP};
use crate::subpel::{bank_ok, filters_ok, FilterBank, SubpelFilters};

verus! {

/// The largest side of a predicted block.
pub const MAX_BLOCK_DIM: usize = 64;

/// The most rows that the first filter pass computes.
pub const MAX_INTERMEDIATE_HEIGHT: usize = 134;

/// One plane of a reference frame. `width` and `height` are the size of the
/// whole frame in luma samples.
pub struct RefPlaneView<'a> {
    pub plane: &'a Plane,
    pub width: u32,
    pub height: u32,
}

/// What the predictions of the planes of a block have in common.
pub struct InterPredictParams<'a> {
    pub ref_frame: [u8; 2],
    /// Motion vectors of the four 4x4 blocks, for each reference.
    pub block_mvs: &'a [[Mv; 4]; 2],
    pub interp_filter: u8,
    pub mi_row: u32,
    pub mi_col: u32,
    pub mi_size: u8,
    pub mi_rows: u32,
    pub mi_cols: u32,
    pub subsampling_x: u32,
    pub subsampling_y: u32,
    pub frame_width: u32,
    pub frame_height: u32,
    pub bit_depth: u8,
    pub refs: [Option<&'a RefPlaneView<'a>>; 2],
    /// The taps of the interpolation filters.
    pub filters: &'a SubpelFilters,
}

// ---------------------------------------------------------------------------
// Interpolation.
// ---------------------------------------------------------------------------

/// `x` limited to what `bit_depth` bits can hold.
pub open spec fn spec_clip1(x: int, bit_depth: int) -> int {
    spec_clip3(0, pow2(bit_depth as nat) - 1, x)
}

/// The first `n` taps at position `p` of a row, applied: `p` is in sixteenths
/// of a pixel, and positions beyond the plane read its nearest sample.
pub open spec fn row_taps(ref_plane: Plane, bank: FilterBank, p: int, row: int, n: nat) -> int
    decreases n,
{
    if n == 0 {
        0
    } else {
        row_taps(ref_plane, bank, p, row, (n - 1) as nat) + bank[p % 16][n - 1] * ref_plane.at(
            spec_clip3(0, ref_plane.width - 1, p / 16 + (n - 1) - 3),
            spec_clip3(0, ref_plane.height - 1, row),
        )
    }
}

/// The reference interpolated along a row.
pub open spec fn row_sample(
    ref_plane: Plane,
    bank: FilterBank,
    p: int,
    row: int,
    bit_depth: int,
) -> int {
    spec_clip1(spec_round2(row_taps(ref_plane, bank, p, row, 8), 7), bit_depth)
}

/// The first `n` taps at position `q` of a column, applied to samples
/// interpolated along rows.
pub open spec fn column_taps(
    ref_plane: Plane,
    bank: FilterBank,
    p: int,
    top: int,
    q: int,
    bit_depth: int,
    n: nat,
) -> int
    decreases n,
{
    if n == 0 {
        0
    } else {
        column_taps(ref_plane, bank, p, top, q, bit_depth, (n - 1) as nat) + bank[q % 16][n - 1]
            * row_sample(ref_plane, bank, p, top + q / 16 + (n - 1) - 3, bit_depth)
    }
}

/// A block of the reference to be interpolated: `x` and `y` are where it
/// starts and `x_step` and `y_step` how far apart its samples are, all in
/// sixteenths of a pixel.
pub struct RefBlock {
    pub plane: Plane,
    pub x: int,
    pub y: int,
    pub x_step: int,
    pub y_step: int,
    pub bit_depth: int,
}

/// The interpolated sample at row `r` and column `c` of a block.
pub open spec fn block_sample(b: RefBlock, bank: FilterBank, r: int, c: int) -> int {
    spec_clip1(
        spec_round2(
            column_taps(
                b.plane,
                bank,
                b.x + b.x_step * c,
                b.y / 16,
                b.y % 16 + b.y_step * r,
                b.bit_depth,
                8,
            ),
            7,
        ),
        b.bit_depth,
    )
}

/// Rows that the first pass computes for a block of `h` rows.
pub open spec fn intermediate_rows(h: int, y_step: int) -> int {
    ((h - 1) * y_step + 15) / 16 + 8
}

/// The block can be interpolated.
pub open spec fn ref_block_ok(b: RefBlock, w: int, h: int) -> bool {
    &&& b.plane.wf()
    &&& b.plane.x0 == 0
    &&& 1 <= b.plane.width <= 0x1000_0000
    &&& 1 <= b.plane.height <= 0x1000_0000
    &&& 0 <= w <= MAX_BLOCK_DIM
    &&& 0 <= h <= MAX_BLOCK_DIM
    &&& 0 <= b.bit_depth <= 16
    &&& -0x1_0000_0000_0000 <= b.x <= 0x1_0000_0000_0000
    &&& -0x1_0000_0000_0000 <= b.y <= 0x1_0000_0000_0000
    &&& -0x1_0000_0000 <= b.x_step <= 0x1_0000_0000
    &&& 0 <= b.y_step <= 0x1_0000_0000
    &&& intermediate_rows(h, b.y_step) <= MAX_INTERMEDIATE_HEIGHT
}

proof fn lemma_row_taps_range(ref_plane: Plane, bank: FilterBank, p: int, row: int, n: nat)
    requires
        bank_ok(bank),
        n <= 8,
    ensures
        -0x80_0000 * n <= row_taps(ref_plane, bank, p, row, n) <= 0x80_0000 * n,
    decreases n,
{
    if n > 0 {
        lemma_row_taps_range(ref_plane, bank, p, row, (n - 1) as nat);
        let c = bank[p % 16][n - 1] as int;
        let v = ref_plane.at(
            spec_clip3(0, ref_plane.width - 1, p / 16 + (n - 1) - 3),
            spec_clip3(0, ref_plane.height - 1, row),
        ) as int;
        assert(-0x80_0000 <= c * v <= 0x80_0000) by (nonlinear_arith)
            requires
                -128 <= c <= 128,
                0 <= v <= 0xffff,
        ;
    }
}

proof fn lemma_clip1_range(x: int, bit_depth: int)
    requires
        0 <= bit_depth <= 16,
    ensures
        0 <= spec_clip1(x, bit_depth) <= 0xffff,
{
    lemma2_to64();
    lemma_pow2_pos(bit_depth as nat);
    if bit_depth < 16 {
        vstd::arithmetic::power2::lemma_pow2_strictly_increases(bit_depth as nat, 16);
    }
}

proof fn lemma_column_taps_range(
    ref_plane: Plane,
    bank: FilterBank,
    p: int,
    top: int,
    q: int,
    bit_depth: int,
    n: nat,
)
    requires
        bank_ok(bank),
        n <= 8,
        0 <= bit_depth <= 16,
    ensures
        -0x80_0000 * n <= column_taps(ref_plane, bank, p, top, q, bit_depth, n) <= 0x80_0000 * n,
    decreases n,
{
    if n > 0 {
        lemma_column_taps_range(ref_plane, bank, p, top, q, bit_depth, (n - 1) as nat);
        let c = bank[q % 16][n - 1] as int;
        let at = top + q / 16 + (n - 1) - 3;
        lemma_clip1_range(spec_round2(row_taps(ref_plane, bank, p, at, 8), 7), bit_depth);
        let v = row_sample(ref_plane, bank, p, at, bit_depth);
        assert(-0x80_0000 <= c * v <= 0x80_0000) by (nonlinear_arith)
            requires
                -128 <= c <= 128,
                0 <= v <= 0xffff,
        ;
    }
}

fn clip1(x: i32, bit_depth: u8) -> (v: i32)
    requires
        bit_depth <= 16,
    ensures
        v == spec_clip1(x as int, bit_depth as int),
        0 <= v <= 0xffff,
{
    proof {
        lemma_clip1_range(x as int, bit_depth as int);
        lemma2_to64();
    }
    clip3(0, (power_of_two(bit_depth as u32) - 1) as i32, x)
}

fn clamp_index(v: i64, len: usize) -> (i: usize)
    requires
        1 <= len <= 0x1000_0000,
    ensures
        i == spec_clip3(0, len - 1, v as int),
        i < len,
{
    let last: i64 = len as i64 - 1;
    if v < 0 {
        0
    } else if v > last {
        last as usize
    } else {
        v as usize
    }
}

/// Interpolates one sample along a row.
fn interpolate_row(
    ref_plane: &Plane,
    bank: &FilterBank,
    p: i64,
    row: i64,
    bit_depth: u8,
) -> (v: i32)
    requires
        bank_ok(*bank),
        bit_depth <= 16,
        ref_plane.wf(),
        ref_plane.x0 == 0,
        1 <= ref_plane.width <= 0x1000_0000,
        1 <= ref_plane.height <= 0x1000_0000,
        -0x100_0000_0000_0000 <= p <= 0x100_0000_0000_0000,
    ensures
        v == row_sample(*ref_plane, *bank, p as int, row as int, bit_depth as int),
        0 <= v <= 0xffff,
{
    let whole: i64 = floor_div(p, 16);
    let phase: usize = (p - 16 * whole) as usize;
    proof {
        lemma_fundamental_div_mod(p as int, 16);
    }
    let ref_y: usize = clamp_index(row, ref_plane.height);
    let mut s: i32 = 0;
    for t in 0..8usize
        invariant
            bank_ok(*bank),
            ref_plane.wf(),
            ref_plane.x0 == 0,
            1 <= ref_plane.width <= 0x1000_0000,
            1 <= ref_plane.height <= 0x1000_0000,
            -0x100_0000_0000_0000 <= p <= 0x100_0000_0000_0000,
            whole == p as int / 16,
            phase == p as int % 16,
            phase < 16,
            ref_y == spec_clip3(0, ref_plane.height - 1, row as int),
            ref_y < ref_plane.height,
            s == row_taps(*ref_plane, *bank, p as int, row as int, t as nat),
    {
        let ref_x: usize = clamp_index(whole + t as i64 - 3, ref_plane.width);
        let sample: i32 = ref_plane.get(ref_x, ref_y) as i32;
        let coeff: i32 = bank[phase][t];
        proof {
            lemma_row_taps_range(*ref_plane, *bank, p as int, row as int, t as nat);
            assert(-0x80_0000 <= coeff * sample <= 0x80_0000) by (nonlinear_arith)
                requires
                    -128 <= coeff <= 128,
                    0 <= sample <= 0xffff,
            ;
        }
        s = s + coeff * sample;
    }
    clip1(round2(s, 7), bit_depth)
}

/// The row index of a tap of the second pass lies in the rows of the first.
proof fn lemma_intermediate_row(h: int, y_step: int, y_frac: int, r: int, t: int)
    requires
        0 <= r < h,
        0 <= y_step,
        0 <= y_frac <= 15,
        0 <= t <= 7,
    ensures
        0 <= (y_frac + y_step * r) / 16 + t < intermediate_rows(h, y_step),
{
    assert(0 <= y_step * r <= (h - 1) * y_step) by (nonlinear_arith)
        requires
            0 <= r <= h - 1,
            0 <= y_step,
    ;
    lemma_div_is_ordered(y_frac + y_step * r, (h - 1) * y_step + 15, 16);
}

/// Interpolates a block of a reference plane, first along rows, then along
/// columns. Gives its samples row by row; a block without rows or columns has
/// none.
pub fn block_inter_predict(
    ref_plane: &Plane,
    x: i64,
    y: i64,
    x_step: i64,
    y_step: i64,
    w: usize,
    h: usize,
    bank: &FilterBank,
    bit_depth: u8,
) -> (pred: Vec<i32>)
    requires
        bank_ok(*bank),
        ref_block_ok(
            (RefBlock {
                plane: *ref_plane,
                x: x as int,
                y: y as int,
                x_step: x_step as int,
                y_step: y_step as int,
                bit_depth: bit_depth as int,
            }),
            w as int,
            h as int,
        ),
    ensures
        pred.len() == w * h,
        forall|r: int, c: int|
            0 <= r < h && 0 <= c < w ==> #[trigger] pred[r * w + c] == block_sample(
                (RefBlock {
                    plane: *ref_plane,
                    x: x as int,
                    y: y as int,
                    x_step: x_step as int,
                    y_step: y_step as int,
                    bit_depth: bit_depth as int,
                }),
                *bank,
                r,
                c,
            ) && 0 <= pred[r * w + c] <= 0xffff,
        forall|i: int| 0 <= i < pred.len() ==> 0 <= #[trigger] pred[i] < pow2(bit_depth as nat),
{
    let ghost b = RefBlock {
        plane: *ref_plane,
        x: x as int,
        y: y as int,
        x_step: x_step as int,
        y_step: y_step as int,
        bit_depth: bit_depth as int,
    };
    if w == 0 || h == 0 {
        assert(w * h == 0) by (nonlinear_arith)
            requires
                w == 0 || h == 0,
        ;
        return Vec::new();
    }
    proof {
        assert(0 <= (h - 1) * y_step <= 63 * 0x1_0000_0000) by (nonlinear_arith)
            requires
                1 <= h <= 64,
                0 <= y_step <= 0x1_0000_0000,
        ;
        lemma_fundamental_div_mod(y as int, 16);
    }
    let rows: usize = (((h as i64 - 1) * y_step + 15) / 16 + 8) as usize;
    let y_whole: i64 = floor_div(y, 16);
    let y_frac: i64 = y - 16 * y_whole;
    proof {
        assert(0 <= rows * w <= 134 * 64) by (nonlinear_arith)
            requires
                0 <= rows <= 134,
                0 <= w <= 64,
        ;
        assert(0 <= w * h <= 64 * 64) by (nonlinear_arith)
            requires
                0 <= h <= 64,
                0 <= w <= 64,
        ;
    }
    let mut intermediate: Vec<i32> = Vec::with_capacity(rows * w);
    assert(0 * w == 0) by (nonlinear_arith);
    for r in 0..rows
        invariant
            b == (RefBlock {
                plane: *ref_plane,
                x: x as int,
                y: y as int,
                x_step: x_step as int,
                y_step: y_step as int,
                bit_depth: bit_depth as int,
            }),
            ref_block_ok(b, w as int, h as int),
            bank_ok(*bank),
            rows == intermediate_rows(h as int, y_step as int),
            rows <= 134,
            y_whole == y as int / 16,
            intermediate.len() == r * w,
            forall|k: int, c: int|
                0 <= k < r && 0 <= c < w ==> #[trigger] intermediate[k * w + c] == row_sample(
                    *ref_plane,
                    *bank,
                    x + x_step * c,
                    y_whole + k - 3,
                    bit_depth as int,
                ) && 0 <= intermediate[k * w + c] <= 0xffff,
    {
        for c in 0..w
            invariant
                b == (RefBlock {
                    plane: *ref_plane,
                    x: x as int,
                    y: y as int,
                    x_step: x_step as int,
                    y_step: y_step as int,
                    bit_depth: bit_depth as int,
                }),
                ref_block_ok(b, w as int, h as int),
                bank_ok(*bank),
                r < rows <= 134,
                y_whole == y as int / 16,
                intermediate.len() == r * w + c,
                forall|k: int, c2: int|
                    0 <= k < r && 0 <= c2 < w ==> #[trigger] intermediate[k * w + c2]
                        == row_sample(
                        *ref_plane,
                        *bank,
                        x + x_step * c2,
                        y_whole + k - 3,
                        bit_depth as int,
                    ) && 0 <= intermediate[k * w + c2] <= 0xffff,
                forall|c2: int|
                    0 <= c2 < c ==> #[trigger] intermediate[r * w + c2] == row_sample(
                        *ref_plane,
                        *bank,
                        x + x_step * c2,
                        y_whole + r - 3,
                        bit_depth as int,
                    ) && 0 <= intermediate[r * w + c2] <= 0xffff,
        {
            proof {
                assert(-0x40_0000_0000 <= x_step * c <= 0x40_0000_0000) by (nonlinear_arith)
                    requires
                        0 <= c <= 64,
                        -0x1_0000_0000 <= x_step <= 0x1_0000_0000,
                ;
            }
            let p: i64 = x + x_step * (c as i64);
            let v: i32 = interpolate_row(ref_plane, bank, p, y_whole + r as i64 - 3, bit_depth);
            let ghost prev = intermediate@;
            intermediate.push(v);
            proof {
                assert forall|k: int, c2: int| 0 <= k < r && 0 <= c2 < w implies #[trigger] intermediate[k
                    * w + c2] == prev[k * w + c2] by {
                    lemma_index_below(w as int, k, c2, r as int);
                }
            }
        }
        proof {
            assert((r + 1) * w == r * w + w) by (nonlinear_arith);
            assert forall|k: int, c: int| 0 <= k < r + 1 && 0 <= c < w implies #[trigger] intermediate[k
                * w + c] == row_sample(
                *ref_plane,
                *bank,
                x + x_step * c,
                y_whole + k - 3,
                bit_depth as int,
            ) && 0 <= intermediate[k * w + c] <= 0xffff by {
                if k < r {
                    assert(intermediate[k * w + c] == row_sample(
                        *ref_plane,
                        *bank,
                        x + x_step * c,
                        y_whole + k - 3,
                        bit_depth as int,
                    ));
                } else {
                    assert(k * w + c == r * w + c);
                }
            }
        }
    }
    let mut pred: Vec<i32> = Vec::with_capacity(w * h);
    for r in 0..h
        invariant
            b == (RefBlock {
                plane: *ref_plane,
                x: x as int,
                y: y as int,
                x_step: x_step as int,
                y_step: y_step as int,
                bit_depth: bit_depth as int,
            }),
            ref_block_ok(b, w as int, h as int),
            bank_ok(*bank),
            rows == intermediate_rows(h as int, y_step as int),
            rows <= 134,
            y_whole == y as int / 16,
            y_frac == y as int % 16,
            intermediate.len() == rows * w,
            forall|k: int, c: int|
                0 <= k < rows && 0 <= c < w ==> #[trigger] intermediate[k * w + c] == row_sample(
                    *ref_plane,
                    *bank,
                    x + x_step * c,
                    y_whole + k - 3,
                    bit_depth as int,
                ) && 0 <= intermediate[k * w + c] <= 0xffff,
            pred.len() == r * w,
            forall|i: int|
                0 <= i < pred.len() ==> 0 <= #[trigger] pred[i] < pow2(bit_depth as nat),
            forall|k: int, c: int|
                0 <= k < r && 0 <= c < w ==> #[trigger] pred[k * w + c] == block_sample(
                    b,
                    *bank,
                    k,
                    c,
                ) && 0 <= pred[k * w + c] <= 0xffff,
    {
        for c in 0..w
            invariant
                b == (RefBlock {
                    plane: *ref_plane,
                    x: x as int,
                    y: y as int,
                    x_step: x_step as int,
                    y_step: y_step as int,
                    bit_depth: bit_depth as int,
                }),
                ref_block_ok(b, w as int, h as int),
                bank_ok(*bank),
                rows == intermediate_rows(h as int, y_step as int),
                rows <= 134,
                r < h,
                y_whole == y as int / 16,
                y_frac == y as int % 16,
                intermediate.len() == rows * w,
                forall|k: int, c2: int|
                    0 <= k < rows && 0 <= c2 < w ==> #[trigger] intermediate[k * w + c2]
                        == row_sample(
                        *ref_plane,
                        *bank,
                        x + x_step * c2,
                        y_whole + k - 3,
                        bit_depth as int,
                    ) && 0 <= intermediate[k * w + c2] <= 0xffff,
                pred.len() == r * w + c,
                forall|i: int|
                    0 <= i < pred.len() ==> 0 <= #[trigger] pred[i] < pow2(bit_depth as nat),
                forall|k: int, c2: int|
                    0 <= k < r && 0 <= c2 < w ==> #[trigger] pred[k * w + c2] == block_sample(
                        b,
                        *bank,
                        k,
                        c2,
                    ) && 0 <= pred[k * w + c2] <= 0xffff,
                forall|c2: int|
                    0 <= c2 < c ==> #[trigger] pred[r * w + c2] == block_sample(
                        b,
                        *bank,
                        r as int,
                        c2,
                    ) && 0 <= pred[r * w + c2] <= 0xffff,
        {
            let v: i32 = interpolate_column(
                intermediate.as_slice(),
                rows,
                w,
                h,
                c,
                y_frac,
                y_step,
                r,
                bank,
                bit_depth,
                Ghost(b),
            );
            let ghost prev = pred@;
            pred.push(v);
            proof {
                lemma_block_sample_range(b, *bank, r as int, c as int);
                assert forall|k: int, c2: int| 0 <= k < r && 0 <= c2 < w implies #[trigger] pred[k
                    * w + c2] == prev[k * w + c2] by {
                    lemma_index_below(w as int, k, c2, r as int);
                }
            }
        }
        proof {
            assert((r + 1) * w == r * w + w) by (nonlinear_arith);
            assert forall|k: int, c: int| 0 <= k < r + 1 && 0 <= c < w implies #[trigger] pred[k * w
                + c] == block_sample(b, *bank, k, c) && 0 <= pred[k * w + c] <= 0xffff by {
                if k < r {
                    assert(pred[k * w + c] == block_sample(b, *bank, k, c));
                } else {
                    assert(k * w + c == r * w + c);
                }
            }
        }
    }
    assert(h * w == w * h) by (nonlinear_arith);
    pred
}

proof fn lemma_index_below(w: int, k: int, c: int, r: int)
    requires
        0 <= k < r,
        0 <= c < w,
    ensures
        0 <= k * w + c < r * w,
{
    assert(k * w + c < r * w) by (nonlinear_arith)
        requires
            0 <= k < r,
            0 <= c < w,
    ;
    assert(0 <= k * w) by (nonlinear_arith)
        requires
            0 <= k,
            0 < w,
    ;
}

/// Interpolates one sample along a column of samples interpolated along rows.
fn interpolate_column(
    intermediate: &[i32],
    rows: usize,
    w: usize,
    h: usize,
    c: usize,
    y_frac: i64,
    y_step: i64,
    r: usize,
    bank: &FilterBank,
    bit_depth: u8,
    Ghost(b): Ghost<RefBlock>,
) -> (v: i32)
    requires
        ref_block_ok(b, w as int, h as int),
        bank_ok(*bank),
        rows == intermediate_rows(h as int, y_step as int),
        rows <= 134,
        r < h,
        c < w,
        y_step == b.y_step,
        y_frac == b.y % 16,
        bit_depth == b.bit_depth,
        intermediate.len() == rows * w,
        forall|k: int, c2: int|
            0 <= k < rows && 0 <= c2 < w ==> #[trigger] intermediate[k * w + c2] == row_sample(
                b.plane,
                *bank,
                b.x + b.x_step * c2,
                b.y / 16 + k - 3,
                b.bit_depth,
            ) && 0 <= intermediate[k * w + c2] <= 0xffff,
    ensures
        v == block_sample(b, *bank, r as int, c as int),
        0 <= v <= 0xffff,
{
    proof {
        assert(0 <= y_step * r <= 64 * 0x1_0000_0000) by (nonlinear_arith)
            requires
                0 <= r <= 64,
                0 <= y_step <= 0x1_0000_0000,
        ;
    }
    let q: i64 = y_frac + y_step * (r as i64);
    proof {
        lemma_intermediate_row(h as int, y_step as int, y_frac as int, r as int, 0);
    }
    let ghost p = b.x + b.x_step * c;
    let base_row: usize = (q / 16) as usize;
    let phase: usize = (q % 16) as usize;
    let mut s: i32 = 0;
    for t in 0..8usize
        invariant
            ref_block_ok(b, w as int, h as int),
            bank_ok(*bank),
            rows == intermediate_rows(h as int, y_step as int),
            rows <= 134,
            r < h,
            c < w,
            0 <= y_step,
            y_step == b.y_step,
            y_frac == b.y % 16,
            bit_depth == b.bit_depth,
            q == y_frac + y_step * r,
            0 <= q,
            p == b.x + b.x_step * c,
            base_row == q as int / 16,
            phase == q as int % 16,
            phase < 16,
            intermediate.len() == rows * w,
            forall|k: int, c2: int|
                0 <= k < rows && 0 <= c2 < w ==> #[trigger] intermediate[k * w + c2] == row_sample(
                    b.plane,
                    *bank,
                    b.x + b.x_step * c2,
                    b.y / 16 + k - 3,
                    b.bit_depth,
                ) && 0 <= intermediate[k * w + c2] <= 0xffff,
            s == column_taps(b.plane, *bank, p, b.y / 16, q as int, b.bit_depth, t as nat),
    {
        proof {
            lemma_intermediate_row(
                h as int,
                y_step as int,
                y_frac as int,
                r as int,
                t as int,
            );
            lemma_index_below(w as int, base_row + t, c as int, rows as int);
            assert(rows * w <= 134 * 64) by (nonlinear_arith)
                requires
                    0 <= rows <= 134,
                    0 <= w <= 64,
            ;
            lemma_column_taps_range(
                b.plane,
                *bank,
                p,
                b.y / 16,
                q as int,
                b.bit_depth,
                t as nat,
            );
            assert(0 <= (base_row + t) * w) by (nonlinear_arith)
                requires
                    0 <= base_row,
                    0 <= t,
                    0 <= w,
            ;
        }
        let sample: i32 = intermediate[(base_row + t) * w + c];
        let coeff: i32 = bank[phase][t];
        proof {
            let k = base_row + t;
            assert(intermediate[k * w + c] == row_sample(
                b.plane,
                *bank,
                b.x + b.x_step * c,
                b.y / 16 + k - 3,
                b.bit_depth,
            ));
            assert(-0x80_0000 <= coeff * sample <= 0x80_0000) by (nonlinear_arith)
                requires
                    -128 <= coeff <= 128,
                    0 <= sample <= 0xffff,
            ;
        }
        s = s + coeff * sample;
    }
    clip1(round2(s, 7), bit_depth)
}

// ---------------------------------------------------------------------------
// Motion vectors.
// ---------------------------------------------------------------------------

/// `v / n`, rounded to the nearest integer, halves away from 0; `n` is even.
pub open spec fn rounded_quotient(v: int, n: int) -> int {
    if v < 0 {
        -((-v + n / 2) / n)
    } else {
        (v + n / 2) / n
    }
}

fn round_mv_comp_q2(value: i32) -> (r: i32)
    requires
        -0x4000_0000 <= value <= 0x4000_0000,
    ensures
        r == rounded_quotient(value as int, 2),
        -0x2000_0001 <= r <= 0x2000_0001,
{
    if value < 0 {
        -((-value + 1) / 2)
    } else {
        (value + 1) / 2
    }
}

fn round_mv_comp_q4(value: i32) -> (r: i32)
    requires
        -0x4000_0000 <= value <= 0x4000_0000,
    ensures
        r == rounded_quotient(value as int, 4),
        -0x2000_0001 <= r <= 0x2000_0001,
{
    if value < 0 {
        -((-value + 2) / 4)
    } else {
        (value + 2) / 4
    }
}

/// Which of a component's values enter the motion vector of a block, and how
/// they are averaged: chroma blocks of blocks below 8x8 average the vectors of
/// the luma blocks that they cover.
pub open spec fn selected_mv(
    p: InterPredictParams,
    plane: int,
    list: int,
    block_idx: int,
    k: int,
) -> int {
    let bm = p.block_mvs[list];
    if plane == 0 || p.mi_size >= BLOCK_8X8 || (p.subsampling_x == 0 && p.subsampling_y == 0) {
        bm[block_idx][k] as int
    } else if p.subsampling_x == 0 {
        rounded_quotient(bm[block_idx][k] + bm[block_idx + 2][k], 2)
    } else if p.subsampling_y == 0 {
        rounded_quotient(bm[block_idx][k] + bm[block_idx + 1][k], 2)
    } else {
        rounded_quotient(bm[0][k] + bm[1][k] + bm[2][k] + bm[3][k], 4)
    }
}

/// The vectors of the blocks that are averaged exist.
pub open spec fn block_idx_ok(p: InterPredictParams, plane: int, block_idx: int) -> bool {
    &&& 0 <= block_idx < 4
    &&& plane > 0 && p.mi_size < BLOCK_8X8 && p.subsampling_x == 0 && p.subsampling_y == 1
        ==> block_idx < 2
    &&& plane > 0 && p.mi_size < BLOCK_8X8 && p.subsampling_x == 1 && p.subsampling_y == 0
        ==> block_idx < 3
}

/// The components of the vectors are small enough to be added up.
pub open spec fn mvs_ok(p: InterPredictParams) -> bool {
    forall|l: int, b: int, k: int|
        0 <= l < 2 && 0 <= b < 4 && 0 <= k < 2 ==> -0x1000_0000 <= #[trigger] p.block_mvs[l][b][k]
            <= 0x1000_0000
}

/// Selects the motion vector of a block.
fn select_mv(plane: usize, ref_list: usize, block_idx: usize, p: &InterPredictParams) -> (mv: Mv)
    requires
        ref_list < 2,
        block_idx_ok(*p, plane as int, block_idx as int),
        mvs_ok(*p),
        p.subsampling_x <= 1,
        p.subsampling_y <= 1,
    ensures
        forall|k: int|
            0 <= k < 2 ==> #[trigger] mv[k] == selected_mv(
                *p,
                plane as int,
                ref_list as int,
                block_idx as int,
                k,
            ) && -0x2000_0001 <= mv[k] <= 0x2000_0001,
{
    let bm: [Mv; 4] = p.block_mvs[ref_list];
    assert(forall|b: int, k: int|
        0 <= b < 4 && 0 <= k < 2 ==> -0x1000_0000 <= #[trigger] bm[b][k] <= 0x1000_0000);
    if plane == 0 || p.mi_size >= BLOCK_8X8 || (p.subsampling_x == 0 && p.subsampling_y == 0) {
        return bm[block_idx];
    }
    if p.subsampling_x == 0 {
        [
            round_mv_comp_q2(bm[block_idx][0] + bm[block_idx + 2][0]),
            round_mv_comp_q2(bm[block_idx][1] + bm[block_idx + 2][1]),
        ]
    } else if p.subsampling_y == 0 {
        [
            round_mv_comp_q2(bm[block_idx][0] + bm[block_idx + 1][0]),
            round_mv_comp_q2(bm[block_idx][1] + bm[block_idx + 1][1]),
        ]
    } else {
        [
            round_mv_comp_q4(bm[0][0] + bm[1][0] + bm[2][0] + bm[3][0]),
            round_mv_comp_q4(bm[0][1] + bm[1][1] + bm[2][1] + bm[3][1]),
        ]
    }
}

/// The subsampling factor of a plane in one direction.
pub open spec fn plane_unit(plane: int, sub: u32) -> int {
    if plane == 0 || sub == 0 {
        1
    } else {
        2
    }
}

/// How far a component, in sixteenths of a sample, may point before the frame:
/// to just beyond the reach of the interpolation. The block is `len` units long
/// and starts at unit `pos`; `u` is the subsampling factor.
pub open spec fn reach_low(pos: int, len: int, u: int) -> int {
    -(pos * 128 / u) - (4 + len * 8 / u) * 16
}

/// How far it may point beyond the end of the frame, which has `count` units.
pub open spec fn reach_high(pos: int, len: int, count: int, u: int) -> int {
    (count - len - pos) * 128 / u + (4 + len * 8 / u) * 16 - 16
}

/// A component in sixteenths of a sample, limited to the reach.
pub open spec fn limited_mv(mv: int, pos: int, len: int, count: int, u: int) -> int {
    spec_clip3(reach_low(pos, len, u), reach_high(pos, len, count, u), 2 * mv / u)
}

/// Height of the block in units.
pub open spec fn block_high(p: InterPredictParams) -> int {
    NUM_8X8_BLOCKS_HIGH_LOOKUP[p.mi_size as int] as int
}

/// Width of the block in units.
pub open spec fn block_wide(p: InterPredictParams) -> int {
    NUM_8X8_BLOCKS_WIDE_LOOKUP[p.mi_size as int] as int
}

/// The row component, limited.
pub open spec fn limited_row(p: InterPredictParams, plane: int, mv: int) -> int {
    limited_mv(
        mv,
        p.mi_row as int,
        block_high(p),
        p.mi_rows as int,
        plane_unit(plane, p.subsampling_y),
    )
}

/// The column component, limited.
pub open spec fn limited_col(p: InterPredictParams, plane: int, mv: int) -> int {
    limited_mv(
        mv,
        p.mi_col as int,
        block_wide(p),
        p.mi_cols as int,
        plane_unit(plane, p.subsampling_x),
    )
}

/// The block lies in the frame.
pub open spec fn position_ok(p: InterPredictParams) -> bool {
    &&& p.mi_size < 13
    &&& p.mi_row < p.mi_rows <= 0x10_0000
    &&& p.mi_col < p.mi_cols <= 0x10_0000
    &&& p.subsampling_x <= 1
    &&& p.subsampling_y <= 1
}

fn limit_component(mv: i32, pos: i32, len: i32, count: i32, u: i32) -> (r: i32)
    requires
        -0x4000_0000 <= mv < 0x4000_0000,
        0 <= pos < count <= 0x10_0000,
        1 <= len <= 8,
        u == 1 || u == 2,
    ensures
        r == limited_mv(mv as int, pos as int, len as int, count as int, u as int),
        -0x1000_0000 <= r <= 0x1000_0000,
{
    let to_end: i32 = if u == 1 { (count - len - pos) * 128 } else { (count - len - pos) * 64 };
    let to_start: i32 = if u == 1 { -(pos * 128) } else { -(pos * 64) };
    let spel: i32 = (4 + len * 8 / u) * 16;
    let doubled: i32 = if u == 1 { 2 * mv } else { mv };
    proof {
        assert(2 * mv as int / 2 == mv);
        assert(pos * 128 / 2 == pos * 64);
        assert((count - len - pos) * 128 / 2 == (count - len - pos) * 64);
    }
    clip3(to_start - spel, to_end + (spel - 16), doubled)
}

/// Limits a motion vector to what the interpolation can reach.
fn clamp_mv_for_plane(plane: usize, mv: Mv, p: &InterPredictParams) -> (r: Mv)
    requires
        position_ok(*p),
        -0x4000_0000 <= mv[0] < 0x4000_0000,
        -0x4000_0000 <= mv[1] < 0x4000_0000,
    ensures
        r[0] == limited_row(*p, plane as int, mv[0] as int),
        r[1] == limited_col(*p, plane as int, mv[1] as int),
        -0x1000_0000 <= r[0] <= 0x1000_0000,
        -0x1000_0000 <= r[1] <= 0x1000_0000,
{
    let bh: i32 = NUM_8X8_BLOCKS_HIGH_LOOKUP[p.mi_size as usize] as i32;
    let bw: i32 = NUM_8X8_BLOCKS_WIDE_LOOKUP[p.mi_size as usize] as i32;
    let uy: i32 = if plane == 0 || p.subsampling_y == 0 { 1 } else { 2 };
    let ux: i32 = if plane == 0 || p.subsampling_x == 0 { 1 } else { 2 };
    [
        limit_component(mv[0], p.mi_row as i32, bh, p.mi_rows as i32, uy),
        limit_component(mv[1], p.mi_col as i32, bw, p.mi_cols as i32, ux),
    ]
}

// ---------------------------------------------------------------------------
// Scaling.
// ---------------------------------------------------------------------------

/// The size of the reference relative to the frame, in units of `2^-14`.
pub open spec fn scale_of(ref_len: int, frame_len: int) -> int {
    ref_len * 0x4000 / frame_len
}

/// Where a block at `pos` of a plane starts in the reference, in sixteenths of
/// a sample; `u` is the subsampling factor and `mv` the limited component.
pub open spec fn scaled_start(pos: int, mv: int, scale: int, u: int) -> int {
    (pos * scale / 0x4000) * 16 + (mv * scale / 0x4000 + (16 * (pos * u) * scale / 0x4000) % 16)
}

/// How far apart the samples of the block are in the reference.
pub open spec fn scaled_step(scale: int) -> int {
    16 * scale / 0x4000
}

fn scale_component(pos: usize, mv: i32, ref_len: u32, frame_len: u32, u: i64) -> (r: (i64, i64))
    requires
        pos <= 0x10_0000,
        -0x1000_0000 <= mv <= 0x1000_0000,
        ref_len <= 0x1_0000,
        1 <= frame_len,
        u == 1 || u == 2,
    ensures
        r.0 == scaled_start(
            pos as int,
            mv as int,
            scale_of(ref_len as int, frame_len as int),
            u as int,
        ),
        r.1 == scaled_step(scale_of(ref_len as int, frame_len as int)),
        -0x1_0000_0000_0000 <= r.0 <= 0x1_0000_0000_0000,
        0 <= r.1 <= 0x10_0000,
{
    let scale: i64 = ref_len as i64 * 0x4000 / frame_len as i64;
    proof {
        let top = ref_len * 0x4000;
        assert(0 <= top / frame_len as int <= top) by (nonlinear_arith)
            requires
                0 <= top,
                1 <= frame_len,
        ;
    }
    assert(0 <= scale <= 0x4000_0000);
    let ghost sc = scale as int;
    proof {
        assert(0 <= pos * sc <= 0x10_0000 * 0x4000_0000) by (nonlinear_arith)
            requires
                0 <= pos <= 0x10_0000,
                0 <= sc <= 0x4000_0000,
        ;
        assert(-0x1000_0000 * 0x4000_0000 <= mv * sc <= 0x1000_0000 * 0x4000_0000)
            by (nonlinear_arith)
            requires
                -0x1000_0000 <= mv <= 0x1000_0000,
                0 <= sc <= 0x4000_0000,
        ;
        assert(0 <= 16 * (pos * u) * sc <= 0x200_0000 * 0x4000_0000) by (nonlinear_arith)
            requires
                0 <= pos <= 0x10_0000,
                1 <= u <= 2,
                0 <= sc <= 0x4000_0000,
        ;
    }
    let luma: i64 = pos as i64 * u;
    let base: i64 = pos as i64 * scale / 0x4000;
    let frac: i64 = (16 * luma * scale / 0x4000) % 16;
    let delta: i64 = floor_div(mv as i64 * scale, 0x4000) + frac;
    (base * 16 + delta, 16 * scale / 0x4000)
}

/// Where a block starts in the reference and how far apart its samples are:
/// columns and rows of the start, then the two steps.
fn scale_mv_for_plane(
    plane: usize,
    x: usize,
    y: usize,
    clamped_mv: Mv,
    ref_width: u32,
    ref_height: u32,
    p: &InterPredictParams,
) -> (r: (i64, i64, i64, i64))
    requires
        x <= 0x10_0000,
        y <= 0x10_0000,
        ref_width <= 0x1_0000,
        ref_height <= 0x1_0000,
        1 <= p.frame_width,
        1 <= p.frame_height,
        p.subsampling_x <= 1,
        p.subsampling_y <= 1,
        -0x1000_0000 <= clamped_mv[0] <= 0x1000_0000,
        -0x1000_0000 <= clamped_mv[1] <= 0x1000_0000,
    ensures
        r.0 == scaled_start(
            x as int,
            clamped_mv[1] as int,
            scale_of(ref_width as int, p.frame_width as int),
            plane_unit(plane as int, p.subsampling_x),
        ),
        r.1 == scaled_start(
            y as int,
            clamped_mv[0] as int,
            scale_of(ref_height as int, p.frame_height as int),
            plane_unit(plane as int, p.subsampling_y),
        ),
        r.2 == scaled_step(scale_of(ref_width as int, p.frame_width as int)),
        r.3 == scaled_step(scale_of(ref_height as int, p.frame_height as int)),
        -0x1_0000_0000_0000 <= r.0 <= 0x1_0000_0000_0000,
        -0x1_0000_0000_0000 <= r.1 <= 0x1_0000_0000_0000,
        0 <= r.2 <= 0x10_0000,
        0 <= r.3 <= 0x10_0000,
{
    let ux: i64 = if plane == 0 || p.subsampling_x == 0 { 1 } else { 2 };
    let uy: i64 = if plane == 0 || p.subsampling_y == 0 { 1 } else { 2 };
    let (start_x, step_x) = scale_component(x, clamped_mv[1], ref_width, p.frame_width, ux);
    let (start_y, step_y) = scale_component(y, clamped_mv[0], ref_height, p.frame_height, uy);
    (start_x, start_y, step_x, step_y)
}

/// An unscaled reference is read one sample per sample, from the block's
/// position displaced by the vector.
pub proof fn lemma_unscaled(len: int, pos: int, mv: int, u: int)
    requires
        len >= 1,
        pos >= 0,
        u == 1 || u == 2,
    ensures
        scale_of(len, len) == 0x4000,
        scaled_step(scale_of(len, len)) == 16,
        scaled_start(pos, mv, scale_of(len, len), u) == 16 * pos + mv,
{
    lemma_fundamental_div_mod_converse(len * 0x4000, len, 0x4000, 0);
    assert(len * 0x4000 == 0x4000 * len);
    assert((16 * (pos * u)) % 16 == 0) by {
        lemma_fundamental_div_mod_converse(16 * (pos * u), 16, pos * u, 0);
    }
    assert(16 * (pos * u) * 0x4000 / 0x4000 == 16 * (pos * u));
}

// ---------------------------------------------------------------------------
// Prediction.
// ---------------------------------------------------------------------------

/// The block of reference `list` that a block of a plane is predicted from.
pub open spec fn ref_block(
    p: InterPredictParams,
    plane: int,
    x: int,
    y: int,
    block_idx: int,
    list: int,
) -> RefBlock {
    let view = p.refs[list]->0;
    let x_scale = scale_of(view.width as int, p.frame_width as int);
    let y_scale = scale_of(view.height as int, p.frame_height as int);
    RefBlock {
        plane: *view.plane,
        x: scaled_start(
            x,
            limited_col(p, plane, selected_mv(p, plane, list, block_idx, 1)),
            x_scale,
            plane_unit(plane, p.subsampling_x),
        ),
        y: scaled_start(
            y,
            limited_row(p, plane, selected_mv(p, plane, list, block_idx, 0)),
            y_scale,
            plane_unit(plane, p.subsampling_y),
        ),
        x_step: scaled_step(x_scale),
        y_step: scaled_step(y_scale),
        bit_depth: p.bit_depth as int,
    }
}

/// A block with a second reference is predicted from both.
pub open spec fn is_compound(p: InterPredictParams) -> bool {
    p.ref_frame[1] > INTRA_FRAME
}

/// The prediction at row `i` and column `j`: the sample of the one reference,
/// or the mean of both, rounded.
pub open spec fn inter_sample(
    p: InterPredictParams,
    plane: int,
    x: int,
    y: int,
    block_idx: int,
    i: int,
    j: int,
) -> int {
    let bank = p.filters[p.interp_filter as int];
    let first = block_sample(ref_block(p, plane, x, y, block_idx, 0), bank, i, j);
    if is_compound(p) {
        spec_round2(first + block_sample(ref_block(p, plane, x, y, block_idx, 1), bank, i, j), 1)
    } else {
        first
    }
}

/// A reference can be used for a block of `h` rows.
pub open spec fn reference_ok(p: InterPredictParams, list: int, h: int) -> bool {
    &&& p.refs[list] is Some
    &&& {
        let view = p.refs[list]->0;
        &&& view.width <= 0x1_0000
        &&& view.height <= 0x1_0000
        &&& view.plane.wf()
        &&& view.plane.x0 == 0
        &&& 1 <= view.plane.width <= 0x1000_0000
        &&& 1 <= view.plane.height <= 0x1000_0000
        &&& intermediate_rows(
            h,
            scaled_step(scale_of(view.height as int, p.frame_height as int)),
        ) <= MAX_INTERMEDIATE_HEIGHT
    }
}

/// A reference of at most twice the frame's height needs no more rows than
/// there is room for, whatever the block.
pub proof fn lemma_double_size_fits(ref_height: int, frame_height: int, h: int)
    requires
        1 <= frame_height,
        0 <= ref_height <= 2 * frame_height,
        0 <= h <= 64,
    ensures
        scaled_step(scale_of(ref_height, frame_height)) <= 32,
        intermediate_rows(h, scaled_step(scale_of(ref_height, frame_height)))
            <= MAX_INTERMEDIATE_HEIGHT,
{
    let s = scale_of(ref_height, frame_height);
    assert(0 <= ref_height * 0x4000 <= 0x8000 * frame_height);
    lemma_div_is_ordered(ref_height * 0x4000, 0x8000 * frame_height, frame_height);
    lemma_fundamental_div_mod_converse(0x8000 * frame_height, frame_height, 0x8000, 0);
    assert(s <= 0x8000);
    let step = scaled_step(s);
    assert(step <= 32);
    assert((h - 1) * step <= 63 * 32) by (nonlinear_arith)
        requires
            0 <= h <= 64,
            0 <= step <= 32,
    ;
}

/// Everything that predicting a block needs.
pub open spec fn inter_ok(
    p: InterPredictParams,
    dst: Plane,
    plane: int,
    x: int,
    y: int,
    w: int,
    h: int,
    block_idx: int,
) -> bool {
    &&& position_ok(p)
    &&& mvs_ok(p)
    &&& block_idx_ok(p, plane, block_idx)
    &&& p.interp_filter < 4
    &&& filters_ok(*p.filters)
    &&& 1 <= p.frame_width
    &&& 1 <= p.frame_height
    &&& p.bit_depth <= 16
    &&& 0 <= x <= 0x10_0000
    &&& 0 <= y <= 0x10_0000
    &&& 0 <= w <= MAX_BLOCK_DIM
    &&& 0 <= h <= MAX_BLOCK_DIM
    &&& reference_ok(p, 0, h)
    &&& is_compound(p) ==> reference_ok(p, 1, h)
    &&& dst.wf()
    &&& w > 0 && h > 0 ==> dst.contains(x, y) && dst.contains(x + w - 1, y + h - 1)
}

/// Interpolates the block of one reference.
fn predict_from(
    plane: usize,
    x: usize,
    y: usize,
    w: usize,
    h: usize,
    block_idx: usize,
    p: &InterPredictParams,
    list: usize,
    Ghost(dst): Ghost<Plane>,
) -> (pred: Vec<i32>)
    requires
        list < 2,
        inter_ok(
            *p,
            dst,
            plane as int,
            x as int,
            y as int,
            w as int,
            h as int,
            block_idx as int,
        ),
        reference_ok(*p, list as int, h as int),
    ensures
        pred.len() == w * h,
        forall|r: int, c: int|
            0 <= r < h && 0 <= c < w ==> #[trigger] pred[r * w + c] == block_sample(
                ref_block(
                    *p,
                    plane as int,
                    x as int,
                    y as int,
                    block_idx as int,
                    list as int,
                ),
                p.filters[p.interp_filter as int],
                r,
                c,
            ) && 0 <= pred[r * w + c] <= 0xffff,
{
    let mv: Mv = select_mv(plane, list, block_idx, p);
    let clamped: Mv = clamp_mv_for_plane(plane, mv, p);
    let view: &RefPlaneView = match p.refs[list] {
        Some(view) => view,
        None => {
            assert(false);
            return Vec::new();
        },
    };
    let (start_x, start_y, step_x, step_y) = scale_mv_for_plane(
        plane,
        x,
        y,
        clamped,
        view.width,
        view.height,
        p,
    );
    assert(bank_ok(p.filters[p.interp_filter as int]));
    block_inter_predict(
        view.plane,
        start_x,
        start_y,
        step_x,
        step_y,
        w,
        h,
        &p.filters[p.interp_filter as usize],
        p.bit_depth,
    )
}

/// Predicts the `w` by `h` block at `(x, y)` of a plane from its references.
/// `block_idx` is the number of the 4x4 block, for blocks below 8x8.
#[verifier::rlimit(40)]
pub fn predict_inter(
    dst: &mut Plane,
    plane: usize,
    x: usize,
    y: usize,
    w: usize,
    h: usize,
    block_idx: usize,
    p: &InterPredictParams,
)
    requires
        inter_ok(
            *p,
            *old(dst),
            plane as int,
            x as int,
            y as int,
            w as int,
            h as int,
            block_idx as int,
        ),
    ensures
        block_replaced(
            *old(dst),
            *final(dst),
            x as int,
            y as int,
            w as int,
            h as int,
            |i: int, j: int|
                inter_sample(*p, plane as int, x as int, y as int, block_idx as int, i, j),
        ),
{
    let compound: bool = p.ref_frame[1] > INTRA_FRAME;
    let ghost before = *dst;
    let ghost bank = p.filters[p.interp_filter as int];
    let first: Vec<i32> = predict_from(plane, x, y, w, h, block_idx, p, 0, Ghost(before));
    let second: Vec<i32> = if compound {
        predict_from(plane, x, y, w, h, block_idx, p, 1, Ghost(before))
    } else {
        Vec::new()
    };
    let ghost value = |i: int, j: int|
        inter_sample(*p, plane as int, x as int, y as int, block_idx as int, i, j);
    for i in 0..h
        invariant
            inter_ok(
                *p,
                before,
                plane as int,
                x as int,
                y as int,
                w as int,
                h as int,
                block_idx as int,
            ),
            compound == is_compound(*p),
            bank == p.filters[p.interp_filter as int],
            first.len() == w * h,
            compound ==> second.len() == w * h,
            forall|r: int, c: int|
                0 <= r < h && 0 <= c < w ==> #[trigger] first[r * w + c] == block_sample(
                    ref_block(*p, plane as int, x as int, y as int, block_idx as int, 0),
                    bank,
                    r,
                    c,
                ) && 0 <= first[r * w + c] <= 0xffff,
            compound ==> forall|r: int, c: int|
                0 <= r < h && 0 <= c < w ==> #[trigger] second[r * w + c] == block_sample(
                    ref_block(*p, plane as int, x as int, y as int, block_idx as int, 1),
                    bank,
                    r,
                    c,
                ) && 0 <= second[r * w + c] <= 0xffff,
            value == (|i: int, j: int|
                inter_sample(*p, plane as int, x as int, y as int, block_idx as int, i, j)),
            dst.wf(),
            dst.same_shape(&before),
            forall|cx: int, cy: int|
                before.contains(cx, cy) ==> #[trigger] dst.at(cx, cy) == if x <= cx < x + w && y
                    <= cy < y + i {
                    value(cy - y, cx - x) as u16
                } else {
                    before.at(cx, cy)
                },
    {
        for j in 0..w
            invariant
                inter_ok(
                    *p,
                    before,
                    plane as int,
                    x as int,
                    y as int,
                    w as int,
                    h as int,
                    block_idx as int,
                ),
                i < h,
                compound == is_compound(*p),
                bank == p.filters[p.interp_filter as int],
                first.len() == w * h,
                compound ==> second.len() == w * h,
                forall|r: int, c: int|
                    0 <= r < h && 0 <= c < w ==> #[trigger] first[r * w + c] == block_sample(
                        ref_block(*p, plane as int, x as int, y as int, block_idx as int, 0),
                        bank,
                        r,
                        c,
                    ) && 0 <= first[r * w + c] <= 0xffff,
                compound ==> forall|r: int, c: int|
                    0 <= r < h && 0 <= c < w ==> #[trigger] second[r * w + c] == block_sample(
                        ref_block(*p, plane as int, x as int, y as int, block_idx as int, 1),
                        bank,
                        r,
                        c,
                    ) && 0 <= second[r * w + c] <= 0xffff,
                value == (|i: int, j: int|
                    inter_sample(*p, plane as int, x as int, y as int, block_idx as int, i, j)),
                dst.wf(),
                dst.same_shape(&before),
                forall|cx: int, cy: int|
                    before.contains(cx, cy) ==> #[trigger] dst.at(cx, cy) == if (x <= cx < x + w && y
                        <= cy < y + i) || (cy == y + i && x <= cx < x + j) {
                        value(cy - y, cx - x) as u16
                    } else {
                        before.at(cx, cy)
                    },
        {
            proof {
                lemma_index_below(w as int, i as int, j as int, h as int);
                assert(h * w == w * h) by (nonlinear_arith);
                assert(w * h <= 64 * 64) by (nonlinear_arith)
                    requires
                        0 <= w <= 64,
                        0 <= h <= 64,
                ;
                assert(0 <= i * w) by (nonlinear_arith)
                    requires
                        0 <= i,
                        0 <= w,
                ;
                assert(first[i * w + j] == block_sample(
                    ref_block(*p, plane as int, x as int, y as int, block_idx as int, 0),
                    bank,
                    i as int,
                    j as int,
                ));
                if compound {
                    assert(second[i * w + j] == block_sample(
                        ref_block(*p, plane as int, x as int, y as int, block_idx as int, 1),
                        bank,
                        i as int,
                        j as int,
                    ));
                    lemma2_to64();
                }
            }
            let a: i32 = first[i * w + j];
            let v: i32 = if compound {
                round2(a + second[i * w + j], 1)
            } else {
                a
            };
            assert(v == value(i as int, j as int));
            assert(0 <= v <= 0xffff);
            dst.set(x + j, y + i, v as u16);
        }
    }
}

/// A filter that copies at whole pixels.
pub open spec fn copies_whole_pixels(bank: FilterBank) -> bool {
    forall|t: int|
        0 <= t < 8 ==> #[trigger] bank[0][t] == if t == 3 {
            128i32
        } else {
            0i32
        }
}

/// The plane's sample at a position, or the nearest one.
pub open spec fn nearest_sample(p: Plane, x: int, y: int) -> int {
    p.at(spec_clip3(0, p.width - 1, x), spec_clip3(0, p.height - 1, y)) as int
}

/// Motion by whole pixels between frames of the same size copies the reference,
/// whose edge samples go on beyond its edges.
pub proof fn lemma_whole_pixel_motion(b: RefBlock, bank: FilterBank, r: int, c: int)
    requires
        copies_whole_pixels(bank),
        b.x % 16 == 0,
        b.y % 16 == 0,
        b.x_step == 16,
        b.y_step == 16,
        1 <= b.bit_depth <= 16,
        forall|x: int, y: int|
            0 <= x < b.plane.width && 0 <= y < b.plane.height ==> #[trigger] b.plane.at(x, y) < pow2(
                b.bit_depth as nat,
            ),
        1 <= b.plane.width,
        1 <= b.plane.height,
    ensures
        block_sample(b, bank, r, c) == nearest_sample(b.plane, b.x / 16 + c, b.y / 16 + r),
{
    let p = b.x + b.x_step * c;
    let q = b.y % 16 + b.y_step * r;
    let top = b.y / 16;
    assert(p % 16 == 0 && p / 16 == b.x / 16 + c);
    assert(q % 16 == 0 && q / 16 == r);
    lemma2_to64();
    let row = top + r;
    lemma_whole_row(b.plane, bank, p, row, b.bit_depth);
    let v = row_sample(b.plane, bank, p, row, b.bit_depth);
    lemma_whole_column_taps(b.plane, bank, p, top, q, b.bit_depth, 8);
    assert(top + q / 16 == row);
    assert(spec_round2(128 * v, 7) == v);
}

/// At a whole pixel only the fourth tap counts.
proof fn lemma_whole_row_taps(plane: Plane, bank: FilterBank, p: int, row: int, n: nat)
    requires
        copies_whole_pixels(bank),
        p % 16 == 0,
        n <= 8,
    ensures
        row_taps(plane, bank, p, row, n) == if n >= 4 {
            128 * nearest_sample(plane, p / 16, row)
        } else {
            0
        },
    decreases n,
{
    if n > 0 {
        lemma_whole_row_taps(plane, bank, p, row, (n - 1) as nat);
        let c = bank[p % 16][n - 1] as int;
        let s = plane.at(
            spec_clip3(0, plane.width - 1, p / 16 + (n - 1) - 3),
            spec_clip3(0, plane.height - 1, row),
        ) as int;
        assert(bank[0][n - 1] == if n == 4 { 128i32 } else { 0i32 });
        assert(c * s == if n == 4 { 128 * s } else { 0 }) by (nonlinear_arith)
            requires
                c == if n == 4 { 128int } else { 0 },
        ;
    }
}

proof fn lemma_whole_column_taps(
    plane: Plane,
    bank: FilterBank,
    p: int,
    top: int,
    q: int,
    bit_depth: int,
    n: nat,
)
    requires
        copies_whole_pixels(bank),
        q % 16 == 0,
        n <= 8,
    ensures
        column_taps(plane, bank, p, top, q, bit_depth, n) == if n >= 4 {
            128 * row_sample(plane, bank, p, top + q / 16, bit_depth)
        } else {
            0
        },
    decreases n,
{
    if n > 0 {
        lemma_whole_column_taps(plane, bank, p, top, q, bit_depth, (n - 1) as nat);
        let c = bank[q % 16][n - 1] as int;
        let s = row_sample(plane, bank, p, top + q / 16 + (n - 1) - 3, bit_depth);
        assert(bank[0][n - 1] == if n == 4 { 128i32 } else { 0i32 });
        assert(c * s == if n == 4 { 128 * s } else { 0 }) by (nonlinear_arith)
            requires
                c == if n == 4 { 128int } else { 0 },
        ;
    }
}

proof fn lemma_whole_row(plane: Plane, bank: FilterBank, p: int, row: int, bit_depth: int)
    requires
        copies_whole_pixels(bank),
        p % 16 == 0,
        1 <= bit_depth <= 16,
        forall|x: int, y: int|
            0 <= x < plane.width && 0 <= y < plane.height ==> #[trigger] plane.at(x, y) < pow2(
                bit_depth as nat,
            ),
        1 <= plane.width,
        1 <= plane.height,
    ensures
        row_sample(plane, bank, p, row, bit_depth) == nearest_sample(plane, p / 16, row),
        0 <= row_sample(plane, bank, p, row, bit_depth) < pow2(bit_depth as nat),
{
    let v = nearest_sample(plane, p / 16, row);
    lemma2_to64();
    lemma_whole_row_taps(plane, bank, p, row, 8);
    assert(spec_round2(128 * v, 7) == v);
}

/// Taps applied to samples of a row as they stand, from three to the left of `x`
/// on: the first `n` of them.
pub open spec fn window_row_taps(plane: Plane, taps: [i32; 8], x: int, row: int, n: nat) -> int
    decreases n,
{
    if n == 0 {
        0
    } else {
        window_row_taps(plane, taps, x, row, (n - 1) as nat) + taps[n - 1] * plane.at(
            x + (n - 1) - 3,
            row,
        )
    }
}

/// A sample interpolated along a row that is not near an edge.
pub open spec fn window_row_sample(
    plane: Plane,
    taps: [i32; 8],
    x: int,
    row: int,
    bit_depth: int,
) -> int {
    spec_clip1(spec_round2(window_row_taps(plane, taps, x, row, 8), 7), bit_depth)
}

/// The first `n` of the taps of a column, from three above `y` on, applied to
/// samples interpolated along rows.
pub open spec fn window_column_taps(
    plane: Plane,
    across: [i32; 8],
    down: [i32; 8],
    x: int,
    y: int,
    bit_depth: int,
    n: nat,
) -> int
    decreases n,
{
    if n == 0 {
        0
    } else {
        window_column_taps(plane, across, down, x, y, bit_depth, (n - 1) as nat) + down[n - 1]
            * window_row_sample(plane, across, x, y + (n - 1) - 3, bit_depth)
    }
}

/// Between frames of the same size all samples of a block are interpolated with
/// one filter across and one down. Where the eight by eight samples around a
/// position are in the plane, none of them is replaced by one at the edge.
pub proof fn lemma_unscaled_sample(b: RefBlock, bank: FilterBank, r: int, c: int)
    requires
        b.x_step == 16,
        b.y_step == 16,
        3 <= b.x / 16 + c,
        b.x / 16 + c + 4 < b.plane.width,
        3 <= b.y / 16 + r,
        b.y / 16 + r + 4 < b.plane.height,
    ensures
        block_sample(b, bank, r, c) == spec_clip1(
            spec_round2(
                window_column_taps(
                    b.plane,
                    bank[b.x % 16],
                    bank[b.y % 16],
                    b.x / 16 + c,
                    b.y / 16 + r,
                    b.bit_depth,
                    8,
                ),
                7,
            ),
            b.bit_depth,
        ),
{
    let p = b.x + b.x_step * c;
    let q = b.y % 16 + b.y_step * r;
    assert(p % 16 == b.x % 16 && p / 16 == b.x / 16 + c);
    assert(q % 16 == b.y % 16 && q / 16 == r);
    lemma_window_column(b.plane, bank, p, b.y / 16, q, b.bit_depth, 8);
}

proof fn lemma_window_row(plane: Plane, bank: FilterBank, p: int, row: int, n: nat)
    requires
        n <= 8,
        3 <= p / 16,
        p / 16 + 4 < plane.width,
        0 <= row < plane.height,
    ensures
        row_taps(plane, bank, p, row, n) == window_row_taps(plane, bank[p % 16], p / 16, row, n),
    decreases n,
{
    if n > 0 {
        lemma_window_row(plane, bank, p, row, (n - 1) as nat);
    }
}

proof fn lemma_window_column(
    plane: Plane,
    bank: FilterBank,
    p: int,
    top: int,
    q: int,
    bit_depth: int,
    n: nat,
)
    requires
        n <= 8,
        3 <= p / 16,
        p / 16 + 4 < plane.width,
        3 <= top + q / 16,
        top + q / 16 + 4 < plane.height,
    ensures
        column_taps(plane, bank, p, top, q, bit_depth, n) == window_column_taps(
            plane,
            bank[p % 16],
            bank[q % 16],
            p / 16,
            top + q / 16,
            bit_depth,
            n,
        ),
    decreases n,
{
    if n > 0 {
        lemma_window_column(plane, bank, p, top, q, bit_depth, (n - 1) as nat);
        lemma_window_row(plane, bank, p, top + q / 16 + (n - 1) - 3, 8);
    }
}

/// An interpolated sample is within the range of the bit depth.
pub proof fn lemma_block_sample_range(b: RefBlock, bank: FilterBank, r: int, c: int)
    ensures
        0 <= block_sample(b, bank, r, c) < pow2(b.bit_depth as nat),
{
    lemma_pow2_pos(b.bit_depth as nat);
}

/// A prediction is within the range of the bit depth.
pub proof fn lemma_inter_sample_range(
    p: InterPredictParams,
    plane: int,
    x: int,
    y: int,
    block_idx: int,
    i: int,
    j: int,
)
    ensures
        0 <= inter_sample(p, plane, x, y, block_idx, i, j) < pow2(p.bit_depth as nat),
{
    lemma2_to64();
    lemma_pow2_pos(p.bit_depth as nat);
}

} // verus!
