//! What inter prediction makes of a plane, in terms of motion vectors and the
//! samples of the reference frames.

use vstd::arithmetic::div_mod::{lemma_fundamental_div_mod, lemma_fundamental_div_mod_converse};
use vstd::arithmetic::power2::{lemma2_to64, lemma_pow2_pos, pow2};
use vstd::prelude::*;
use crate::framebuffer::Plane;
use crate::predict::block_replaced;
use crate::prob_tables::{BLOCK_8X8, NUM_8X8_BLOCKS_HIGH_LOOKUP, NUM_8X8_BLOCKS_WIDE_LOOKUP};
use crate::subpel::FilterBank;
use super::inter::{
    block_sample, copies_whole_pixels, inter_ok, inter_sample, lemma_inter_sample_range,
    lemma_unscaled, lemma_unscaled_sample, lemma_whole_pixel_motion, limited_mv, plane_unit,
    ref_block, rounded_quotient, scale_of, scaled_start, scaled_step, selected_mv,
    window_column_taps, window_row_sample, window_row_taps, InterPredictParams,
};

verus! {

/// A block to be predicted from references.
pub struct InterBlock<'a> {
    pub p: InterPredictParams<'a>,
    /// The plane before the prediction.
    pub dst: Plane,
    pub plane: int,
    pub x: int,
    pub y: int,
    pub w: int,
    pub h: int,
    pub block_idx: int,
}

/// The block can be predicted.
pub open spec fn predictable(b: InterBlock) -> bool {
    b.plane >= 0 && inter_ok(b.p, b.dst, b.plane, b.x, b.y, b.w, b.h, b.block_idx)
}

/// The block has been predicted, which turned its plane into `after`.
pub open spec fn inter_predicted(b: InterBlock, after: Plane) -> bool {
    block_replaced(
        b.dst,
        after,
        b.x,
        b.y,
        b.w,
        b.h,
        |i: int, j: int| inter_sample(b.p, b.plane, b.x, b.y, b.block_idx, i, j),
    )
}

/// The sample that the prediction put at row `i` and column `j` of the block.
pub open spec fn put(b: InterBlock, after: Plane, i: int, j: int) -> int {
    after.at(b.x + j, b.y + i) as int
}

/// `m` is `s / d`, rounded to the nearest integer, halves away from 0.
pub open spec fn nearest_quotient(m: int, s: int, d: int) -> bool {
    if s >= 0 {
        2 * d * m - d <= 2 * s < 2 * d * m + d
    } else {
        2 * d * m - d < 2 * s <= 2 * d * m + d
    }
}

/// The component `k` of the vector that moves a block, given the vectors of the
/// four 4x4 blocks: its own for luma, for blocks of 8x8 and more and for chroma
/// of full size; otherwise the mean of the vectors of the luma blocks that the
/// chroma block covers.
pub open spec fn moves_by(b: InterBlock, list: int, k: int, m: int) -> bool {
    let v = b.p.block_mvs[list];
    let i = b.block_idx;
    let halved_x = b.plane > 0 && b.p.subsampling_x == 1;
    let halved_y = b.plane > 0 && b.p.subsampling_y == 1;
    if b.p.mi_size >= BLOCK_8X8 || (!halved_x && !halved_y) {
        m == v[i][k]
    } else if halved_x && halved_y {
        nearest_quotient(m, v[0][k] + v[1][k] + v[2][k] + v[3][k], 4)
    } else if halved_x {
        nearest_quotient(m, v[i][k] + v[i + 1][k], 2)
    } else {
        nearest_quotient(m, v[i][k] + v[i + 2][k], 2)
    }
}

proof fn lemma_nearest(m: int, s: int)
    ensures
        nearest_quotient(m, s, 2) ==> rounded_quotient(s, 2) == m,
        nearest_quotient(m, s, 4) ==> rounded_quotient(s, 4) == m,
{
    assert(rounded_quotient(s, 2) == if s < 0 {
        -((-s + 1) / 2)
    } else {
        (s + 1) / 2
    });
    assert(rounded_quotient(s, 4) == if s < 0 {
        -((-s + 2) / 4)
    } else {
        (s + 2) / 4
    });
    if nearest_quotient(m, s, 2) {
        assert(if s >= 0 {
            4 * m - 2 <= 2 * s < 4 * m + 2
        } else {
            4 * m - 2 < 2 * s <= 4 * m + 2
        });
        assert(s == 2 * m || s == 2 * m - 1 || s == 2 * m + 1);
    }
    if nearest_quotient(m, s, 4) {
        assert(if s >= 0 {
            8 * m - 4 <= 2 * s < 8 * m + 4
        } else {
            8 * m - 4 < 2 * s <= 8 * m + 4
        });
    }
}

proof fn lemma_moves_by(b: InterBlock, list: int, k: int, m: int)
    requires
        predictable(b),
        0 <= list < 2,
        0 <= k < 2,
        moves_by(b, list, k, m),
    ensures
        selected_mv(b.p, b.plane, list, b.block_idx, k) == m,
{
    let v = b.p.block_mvs[list];
    let i = b.block_idx;
    lemma_nearest(m, v[0][k] + v[1][k] + v[2][k] + v[3][k]);
    lemma_nearest(m, v[i][k] + v[i + 1][k]);
    lemma_nearest(m, v[i][k] + v[i + 2][k]);
}

/// The sample of a plane at a place, or the one nearest to it.
pub open spec fn or_nearest(p: Plane, x: int, y: int) -> int {
    let cx = if x < 0 {
        0
    } else if x >= p.width {
        p.width - 1
    } else {
        x
    };
    let cy = if y < 0 {
        0
    } else if y >= p.height {
        p.height - 1
    } else {
        y
    };
    p.at(cx, cy) as int
}

/// Where a block of `len` samples goes that is moved to `to` in a frame of `count`
/// samples: no further than where the interpolation still reaches the frame.
pub open spec fn kept_in_reach(to: int, len: int, count: int) -> int {
    if to < -(len + 4) {
        -(len + 4)
    } else if to > count + 3 {
        count + 3
    } else {
        to
    }
}

/// The bank copies samples at whole positions.
pub open spec fn copies(bank: FilterBank) -> bool {
    let taps = bank[0];
    taps[0] == 0 && taps[1] == 0 && taps[2] == 0 && taps[3] == 128 && taps[4] == 0 && taps[5] == 0
        && taps[6] == 0 && taps[7] == 0
}

/// All samples fit the bit depth.
pub open spec fn fits_depth(p: Plane, bit_depth: int) -> bool {
    forall|x: int, y: int|
        0 <= x < p.width && 0 <= y < p.height ==> #[trigger] p.at(x, y) < pow2(bit_depth as nat)
}

proof fn lemma_put(b: InterBlock, after: Plane, i: int, j: int)
    requires
        predictable(b),
        inter_predicted(b, after),
        0 <= i < b.h,
        0 <= j < b.w,
    ensures
        put(b, after, i, j) == inter_sample(b.p, b.plane, b.x, b.y, b.block_idx, i, j),
        0 <= put(b, after, i, j) < pow2(b.p.bit_depth as nat),
{
    lemma_inter_sample_range(b.p, b.plane, b.x, b.y, b.block_idx, i, j);
    lemma2_to64();
    if b.p.bit_depth < 16 {
        vstd::arithmetic::power2::lemma_pow2_strictly_increases(b.p.bit_depth as nat, 16);
    }
    assert(b.dst.contains(b.x + j, b.y + i));
}

proof fn lemma_reach(mv: int, pos: int, len: int, count: int)
    requires
        0 <= pos < count,
        1 <= len <= 8,
    ensures
        limited_mv(8 * mv, pos, len, count, 1) == 16 * (kept_in_reach(
            8 * pos + mv,
            8 * len,
            8 * count,
        ) - 8 * pos),
        limited_mv(16 * mv, pos, len, count, 2) == 16 * (kept_in_reach(
            4 * pos + mv,
            4 * len,
            4 * count,
        ) - 4 * pos),
{
}

/// A whole sample of a plane, in eighths of a luma sample.
pub open spec fn whole_sample(plane: int, sub: u32) -> int {
    if plane > 0 && sub == 1 {
        16
    } else {
        8
    }
}

/// How many samples of a plane a unit of 8 luma samples has in one direction.
pub open spec fn unit_samples(plane: int, sub: u32) -> int {
    if plane > 0 && sub == 1 {
        4
    } else {
        8
    }
}

/// A vector that moves a block by whole samples copies it from the displaced
/// place of a reference of the same size, whose edge samples go on beyond its
/// edges. The displacement is that of the block's own vector, or the mean of the
/// vectors that it covers; vectors are in eighths of a luma sample. A block is not
/// moved further than the interpolation reaches.
pub proof fn lemma_whole_sample_motion(
    b: InterBlock,
    after: Plane,
    down: int,
    right: int,
    i: int,
    j: int,
)
    requires
        predictable(b),
        inter_predicted(b, after),
        b.p.ref_frame[1] == 0,
        b.p.refs[0]->0.width == b.p.frame_width,
        b.p.refs[0]->0.height == b.p.frame_height,
        copies(b.p.filters[b.p.interp_filter as int]),
        fits_depth(*b.p.refs[0]->0.plane, b.p.bit_depth as int),
        1 <= b.p.bit_depth,
        moves_by(b, 0, 0, down * whole_sample(b.plane, b.p.subsampling_y)),
        moves_by(b, 0, 1, right * whole_sample(b.plane, b.p.subsampling_x)),
        0 <= i < b.h,
        0 <= j < b.w,
    ensures
        ({
            let ey = unit_samples(b.plane, b.p.subsampling_y);
            let ex = unit_samples(b.plane, b.p.subsampling_x);
            let top = ey * b.p.mi_row;
            let left = ex * b.p.mi_col;
            let size = b.p.mi_size as int;
            put(b, after, i, j) == or_nearest(
                *b.p.refs[0]->0.plane,
                b.x - left + j + kept_in_reach(
                    left + right,
                    ex * NUM_8X8_BLOCKS_WIDE_LOOKUP[size],
                    ex * b.p.mi_cols,
                ),
                b.y - top + i + kept_in_reach(
                    top + down,
                    ey * NUM_8X8_BLOCKS_HIGH_LOOKUP[size],
                    ey * b.p.mi_rows,
                ),
            )
        }),
{
    lemma_moved_block(b, 0, down, right, i, j);
    lemma_put(b, after, i, j);
}

/// The displaced place of a reference, as a sample of it.
pub open spec fn displaced(b: InterBlock, list: int, down: int, right: int, i: int, j: int) -> int {
    let ey = unit_samples(b.plane, b.p.subsampling_y);
    let ex = unit_samples(b.plane, b.p.subsampling_x);
    let top = ey * b.p.mi_row;
    let left = ex * b.p.mi_col;
    let size = b.p.mi_size as int;
    or_nearest(
        *b.p.refs[list]->0.plane,
        b.x - left + j + kept_in_reach(
            left + right,
            ex * NUM_8X8_BLOCKS_WIDE_LOOKUP[size],
            ex * b.p.mi_cols,
        ),
        b.y - top + i + kept_in_reach(
            top + down,
            ey * NUM_8X8_BLOCKS_HIGH_LOOKUP[size],
            ey * b.p.mi_rows,
        ),
    )
}

#[verifier::spinoff_prover]
proof fn lemma_moved_block(b: InterBlock, list: int, down: int, right: int, i: int, j: int)
    requires
        predictable(b),
        list == 0 || (list == 1 && b.p.ref_frame[1] > 0),
        b.p.refs[list]->0.width == b.p.frame_width,
        b.p.refs[list]->0.height == b.p.frame_height,
        copies(b.p.filters[b.p.interp_filter as int]),
        fits_depth(*b.p.refs[list]->0.plane, b.p.bit_depth as int),
        1 <= b.p.bit_depth,
        moves_by(b, list, 0, down * whole_sample(b.plane, b.p.subsampling_y)),
        moves_by(b, list, 1, right * whole_sample(b.plane, b.p.subsampling_x)),
    ensures
        block_sample(
            ref_block(b.p, b.plane, b.x, b.y, b.block_idx, list),
            b.p.filters[b.p.interp_filter as int],
            i,
            j,
        ) == displaced(b, list, down, right, i, j),
{
    let ey = unit_samples(b.plane, b.p.subsampling_y);
    let ex = unit_samples(b.plane, b.p.subsampling_x);
    let size = b.p.mi_size as int;
    lemma_moves_by(b, list, 0, down * whole_sample(b.plane, b.p.subsampling_y));
    lemma_moves_by(b, list, 1, right * whole_sample(b.plane, b.p.subsampling_x));
    assert(1 <= NUM_8X8_BLOCKS_HIGH_LOOKUP[size] <= 8);
    assert(1 <= NUM_8X8_BLOCKS_WIDE_LOOKUP[size] <= 8);
    lemma_moved_start(
        b.plane,
        b.p.subsampling_y,
        b.p.frame_height as int,
        b.y,
        down,
        b.p.mi_row as int,
        NUM_8X8_BLOCKS_HIGH_LOOKUP[size] as int,
        b.p.mi_rows as int,
    );
    lemma_moved_start(
        b.plane,
        b.p.subsampling_x,
        b.p.frame_width as int,
        b.x,
        right,
        b.p.mi_col as int,
        NUM_8X8_BLOCKS_WIDE_LOOKUP[size] as int,
        b.p.mi_cols as int,
    );
    let r = ref_block(b.p, b.plane, b.x, b.y, b.block_idx, list);
    let bank = b.p.filters[b.p.interp_filter as int];
    lemma_copies(bank);
    lemma_whole_pixel_motion(r, bank, i, j);
    assert(r.x / 16 == b.x - ex * b.p.mi_col + kept_in_reach(
        ex * b.p.mi_col + right,
        ex * NUM_8X8_BLOCKS_WIDE_LOOKUP[size],
        ex * b.p.mi_cols,
    ));
    assert(r.y / 16 == b.y - ey * b.p.mi_row + kept_in_reach(
        ey * b.p.mi_row + down,
        ey * NUM_8X8_BLOCKS_HIGH_LOOKUP[size],
        ey * b.p.mi_rows,
    ));
}

proof fn lemma_copies(bank: FilterBank)
    requires
        copies(bank),
    ensures
        copies_whole_pixels(bank),
{
    assert forall|t: int| 0 <= t < 8 implies #[trigger] bank[0][t] == if t == 3 {
        128i32
    } else {
        0i32
    } by {
        assert(t == 0 || t == 1 || t == 2 || t == 3 || t == 4 || t == 5 || t == 6 || t == 7);
    }
}

proof fn lemma_moved_start(
    plane: int,
    sub: u32,
    frame: int,
    place: int,
    m: int,
    mi: int,
    len: int,
    count: int,
)
    requires
        plane >= 0,
        sub <= 1,
        frame >= 1,
        place >= 0,
        0 <= mi < count,
        1 <= len <= 8,
    ensures
        ({
            let e = unit_samples(plane, sub);
            let u = plane_unit(plane, sub);
            let start = scaled_start(
                place,
                limited_mv(m * whole_sample(plane, sub), mi, len, count, u),
                scale_of(frame, frame),
                u,
            );
            &&& start == 16 * (place - e * mi + kept_in_reach(e * mi + m, e * len, e * count))
            &&& scaled_step(scale_of(frame, frame)) == 16
        }),
{
    lemma_reach(m, mi, len, count);
    let u = plane_unit(plane, sub);
    let l = limited_mv(m * whole_sample(plane, sub), mi, len, count, u);
    lemma_unscaled(frame, place, l, u);
    if plane > 0 && sub == 1 {
        assert(m * whole_sample(plane, sub) == 16 * m);
    } else {
        assert(m * whole_sample(plane, sub) == 8 * m);
    }
}

/// A block with two references is the mean of what each of them alone predicts,
/// rounded up.
pub proof fn lemma_two_references(
    b: InterBlock,
    after: Plane,
    first: InterBlock,
    after_first: Plane,
    second: InterBlock,
    after_second: Plane,
    i: int,
    j: int,
)
    requires
        predictable(b),
        inter_predicted(b, after),
        b.p.ref_frame[1] > 0,
        alone(b, 0, first),
        alone(b, 1, second),
        predictable(first),
        predictable(second),
        inter_predicted(first, after_first),
        inter_predicted(second, after_second),
        0 <= i < b.h,
        0 <= j < b.w,
    ensures
        ({
            let sum = put(first, after_first, i, j) + put(second, after_second, i, j);
            2 * put(b, after, i, j) == sum || 2 * put(b, after, i, j) == sum + 1
        }),
{
    lemma2_to64();
    lemma_put(b, after, i, j);
    lemma_put(first, after_first, i, j);
    lemma_put(second, after_second, i, j);
    lemma_alone(b, 0, first);
    lemma_alone(b, 1, second);
}

/// The same block with one of its references, and the vectors for it, alone.
pub open spec fn alone(b: InterBlock, list: int, c: InterBlock) -> bool {
    &&& c.p.ref_frame[1] == 0
    &&& c.p.block_mvs[0] == b.p.block_mvs[list]
    &&& c.p.refs[0] == b.p.refs[list]
    &&& c.p.interp_filter == b.p.interp_filter
    &&& c.p.mi_row == b.p.mi_row
    &&& c.p.mi_col == b.p.mi_col
    &&& c.p.mi_size == b.p.mi_size
    &&& c.p.mi_rows == b.p.mi_rows
    &&& c.p.mi_cols == b.p.mi_cols
    &&& c.p.subsampling_x == b.p.subsampling_x
    &&& c.p.subsampling_y == b.p.subsampling_y
    &&& c.p.frame_width == b.p.frame_width
    &&& c.p.frame_height == b.p.frame_height
    &&& c.p.bit_depth == b.p.bit_depth
    &&& c.p.filters == b.p.filters
    &&& c.dst == b.dst
    &&& c.plane == b.plane
    &&& c.x == b.x
    &&& c.y == b.y
    &&& c.w == b.w
    &&& c.h == b.h
    &&& c.block_idx == b.block_idx
}

proof fn lemma_alone(b: InterBlock, list: int, c: InterBlock)
    requires
        alone(b, list, c),
        list == 0 || list == 1,
    ensures
        ref_block(c.p, c.plane, c.x, c.y, c.block_idx, 0) == ref_block(
            b.p,
            b.plane,
            b.x,
            b.y,
            b.block_idx,
            list,
        ),
{
}

/// A row of samples weighed with eight taps, from three to the left of `x` on.
pub open spec fn weighed_row(p: Plane, taps: [i32; 8], x: int, y: int) -> int {
    taps[0] * p.at(x - 3, y) + taps[1] * p.at(x - 2, y) + taps[2] * p.at(x - 1, y) + taps[3] * p.at(
        x,
        y,
    ) + taps[4] * p.at(x + 1, y) + taps[5] * p.at(x + 2, y) + taps[6] * p.at(x + 3, y) + taps[7]
        * p.at(x + 4, y)
}

/// A column of values weighed with eight taps, from three above `y` on.
pub open spec fn weighed_column(values: spec_fn(int) -> int, taps: [i32; 8], y: int) -> int {
    taps[0] * values(y - 3) + taps[1] * values(y - 2) + taps[2] * values(y - 1) + taps[3] * values(y)
        + taps[4] * values(y + 1) + taps[5] * values(y + 2) + taps[6] * values(y + 3) + taps[7]
        * values(y + 4)
}

/// A weighed sum divided by 128, rounded to the nearest, limited to the range of
/// the bit depth.
pub open spec fn scaled_down(sum: int, bit_depth: int) -> int {
    let v = (sum + 64) / 128;
    let top = pow2(bit_depth as nat) - 1;
    if v < 0 {
        0
    } else if v > top {
        top
    } else {
        v
    }
}

/// A component in sixteenths of a sample of the plane, given in eighths of a luma
/// sample.
pub open spec fn sixteenths(plane: int, sub: u32, m: int) -> int {
    if plane > 0 && sub == 1 {
        m
    } else {
        2 * m
    }
}

/// A component that does not take the block out of the frame.
pub open spec fn stays_inside(plane: int, sub: u32, m: int, mi: int, count: int) -> bool {
    let e = unit_samples(plane, sub);
    0 <= e * mi + sixteenths(plane, sub, m) / 16 < e * count
}

proof fn lemma_not_limited(plane: int, sub: u32, m: int, mi: int, len: int, count: int)
    requires
        plane >= 0,
        sub <= 1,
        0 <= mi < count,
        1 <= len <= 8,
        stays_inside(plane, sub, m, mi, count),
    ensures
        limited_mv(m, mi, len, count, plane_unit(plane, sub)) == sixteenths(plane, sub, m),
{
    if plane > 0 && sub == 1 {
        assert(limited_mv(m, mi, len, count, 2) == m);
    } else {
        assert(limited_mv(m, mi, len, count, 1) == 2 * m);
    }
}

/// In a reference of the same size, a block whose vector is within reach is
/// interpolated first along rows with the taps of its filter for the column fraction,
/// then along columns with those for the row fraction, each in sixteenths, from the
/// samples around the displaced place.
#[verifier::spinoff_prover]
#[verifier::rlimit(40)]
pub proof fn lemma_fractional_motion(
    b: InterBlock,
    after: Plane,
    mr: int,
    mc: int,
    i: int,
    j: int,
)
    requires
        predictable(b),
        inter_predicted(b, after),
        b.p.ref_frame[1] == 0,
        b.p.refs[0]->0.width == b.p.frame_width,
        b.p.refs[0]->0.height == b.p.frame_height,
        moves_by(b, 0, 0, mr),
        moves_by(b, 0, 1, mc),
        stays_inside(b.plane, b.p.subsampling_y, mr, b.p.mi_row as int, b.p.mi_rows as int),
        stays_inside(b.plane, b.p.subsampling_x, mc, b.p.mi_col as int, b.p.mi_cols as int),
        0 <= i < b.h,
        0 <= j < b.w,
        ({
            let r = b.p.refs[0]->0.plane;
            let y = b.y + i + sixteenths(b.plane, b.p.subsampling_y, mr) / 16;
            let x = b.x + j + sixteenths(b.plane, b.p.subsampling_x, mc) / 16;
            3 <= x < r.width - 4 && 3 <= y < r.height - 4
        }),
    ensures
        ({
            let r = *b.p.refs[0]->0.plane;
            let fy = sixteenths(b.plane, b.p.subsampling_y, mr);
            let fx = sixteenths(b.plane, b.p.subsampling_x, mc);
            let across = b.p.filters[b.p.interp_filter as int][fx % 16];
            let down = b.p.filters[b.p.interp_filter as int][fy % 16];
            let depth = b.p.bit_depth as int;
            let x = b.x + j + fx / 16;
            let y = b.y + i + fy / 16;
            put(b, after, i, j) == scaled_down(
                weighed_column(|t: int| scaled_down(weighed_row(r, across, x, t), depth), down, y),
                depth,
            )
        }),
{
    let r = *b.p.refs[0]->0.plane;
    let bank = b.p.filters[b.p.interp_filter as int];
    let depth = b.p.bit_depth as int;
    let size = b.p.mi_size as int;
    let fy = sixteenths(b.plane, b.p.subsampling_y, mr);
    let fx = sixteenths(b.plane, b.p.subsampling_x, mc);
    lemma_near_start(b, 0, mr, mc);
    let blk = ref_block(b.p, b.plane, b.x, b.y, b.block_idx, 0);
    lemma_unscaled(
        b.p.frame_height as int,
        b.y,
        fy,
        plane_unit(b.plane, b.p.subsampling_y),
    );
    lemma_unscaled(
        b.p.frame_width as int,
        b.x,
        fx,
        plane_unit(b.plane, b.p.subsampling_x),
    );
    assert(blk.x == 16 * b.x + fx && blk.y == 16 * b.y + fy);
    assert(blk.x / 16 == b.x + fx / 16 && blk.x % 16 == fx % 16);
    assert(blk.y / 16 == b.y + fy / 16 && blk.y % 16 == fy % 16);
    lemma_unscaled_sample(blk, bank, i, j);
    lemma_put(b, after, i, j);
    let x = b.x + j + fx / 16;
    let y = b.y + i + fy / 16;
    let across = bank[fx % 16];
    let down = bank[fy % 16];
    let values = |t: int| scaled_down(weighed_row(r, across, x, t), depth);
    lemma_window_values(r, across, down, x, y, depth);
    lemma2_to64();
    lemma_pow2_pos(depth as nat);
}

proof fn lemma_window_values(
    r: Plane,
    across: [i32; 8],
    down: [i32; 8],
    x: int,
    y: int,
    depth: int,
)
    ensures
        window_column_taps(r, across, down, x, y, depth, 8) == weighed_column(
            |t: int| scaled_down(weighed_row(r, across, x, t), depth),
            down,
            y,
        ),
{
    let values = |t: int| scaled_down(weighed_row(r, across, x, t), depth);
    lemma2_to64();
    lemma_pow2_pos(depth as nat);
    assert forall|t: int| #[trigger] values(t) == window_row_sample(r, across, x, t, depth) by {
        reveal_with_fuel(window_row_taps, 9);
    }
    reveal_with_fuel(window_column_taps, 9);
    assert(values(y - 3) == window_row_sample(r, across, x, y - 3, depth));
    assert(values(y - 2) == window_row_sample(r, across, x, y - 2, depth));
    assert(values(y - 1) == window_row_sample(r, across, x, y - 1, depth));
    assert(values(y) == window_row_sample(r, across, x, y, depth));
    assert(values(y + 1) == window_row_sample(r, across, x, y + 1, depth));
    assert(values(y + 2) == window_row_sample(r, across, x, y + 2, depth));
    assert(values(y + 3) == window_row_sample(r, across, x, y + 3, depth));
    assert(values(y + 4) == window_row_sample(r, across, x, y + 4, depth));
}

proof fn lemma_near_start(b: InterBlock, list: int, mr: int, mc: int)
    requires
        predictable(b),
        list == 0 || list == 1,
        moves_by(b, list, 0, mr),
        moves_by(b, list, 1, mc),
        stays_inside(b.plane, b.p.subsampling_y, mr, b.p.mi_row as int, b.p.mi_rows as int),
        stays_inside(b.plane, b.p.subsampling_x, mc, b.p.mi_col as int, b.p.mi_cols as int),
    ensures
        ({
            let r = ref_block(b.p, b.plane, b.x, b.y, b.block_idx, list);
            let view = b.p.refs[list]->0;
            &&& r.x == scaled_start(
                b.x,
                sixteenths(b.plane, b.p.subsampling_x, mc),
                scale_of(view.width as int, b.p.frame_width as int),
                plane_unit(b.plane, b.p.subsampling_x),
            )
            &&& r.y == scaled_start(
                b.y,
                sixteenths(b.plane, b.p.subsampling_y, mr),
                scale_of(view.height as int, b.p.frame_height as int),
                plane_unit(b.plane, b.p.subsampling_y),
            )
        }),
{
    let size = b.p.mi_size as int;
    assert(1 <= NUM_8X8_BLOCKS_HIGH_LOOKUP[size] <= 8);
    assert(1 <= NUM_8X8_BLOCKS_WIDE_LOOKUP[size] <= 8);
    lemma_moves_by(b, list, 0, mr);
    lemma_moves_by(b, list, 1, mc);
    lemma_not_limited(
        b.plane,
        b.p.subsampling_y,
        mr,
        b.p.mi_row as int,
        NUM_8X8_BLOCKS_HIGH_LOOKUP[size] as int,
        b.p.mi_rows as int,
    );
    lemma_not_limited(
        b.plane,
        b.p.subsampling_x,
        mc,
        b.p.mi_col as int,
        NUM_8X8_BLOCKS_WIDE_LOOKUP[size] as int,
        b.p.mi_cols as int,
    );
}

/// Samples of a block are as far apart in the reference as the sizes of the two
/// frames ask for, in sixteenths, rounded down: a step is not longer than the
/// exact one, and hardly more than a sixteenth shorter.
pub proof fn lemma_step_follows_sizes(b: InterBlock, list: int)
    requires
        predictable(b),
        list == 0 || (list == 1 && b.p.ref_frame[1] > 0),
    ensures
        ({
            let r = ref_block(b.p, b.plane, b.x, b.y, b.block_idx, list);
            let view = b.p.refs[list]->0;
            &&& r.x_step * b.p.frame_width <= 16 * view.width
            &&& 1024 * (r.x_step + 1) * b.p.frame_width + b.p.frame_width > 0x4000 * view.width
            &&& r.y_step * b.p.frame_height <= 16 * view.height
            &&& 1024 * (r.y_step + 1) * b.p.frame_height + b.p.frame_height > 0x4000 * view.height
        }),
{
    let view = b.p.refs[list]->0;
    lemma_step_bounds(view.width as int, b.p.frame_width as int);
    lemma_step_bounds(view.height as int, b.p.frame_height as int);
}

proof fn lemma_step_bounds(len: int, frame: int)
    requires
        0 <= len,
        1 <= frame,
    ensures
        ({
            let step = scaled_step(scale_of(len, frame));
            &&& step * frame <= 16 * len
            &&& 1024 * (step + 1) * frame + frame > 0x4000 * len
        }),
{
    let s = scale_of(len, frame);
    let step = scaled_step(s);
    lemma_fundamental_div_mod(len * 0x4000, frame);
    assert(s * frame <= len * 0x4000 < s * frame + frame) by (nonlinear_arith)
        requires
            len * 0x4000 == frame * s + (len * 0x4000) % frame,
            0 <= (len * 0x4000) % frame < frame,
    ;
    assert(1024 * step <= s < 1024 * (step + 1));
    assert(1024 * (step * frame) <= s * frame) by (nonlinear_arith)
        requires
            1024 * step <= s,
            1 <= frame,
    ;
    assert(s * frame <= 1024 * (step + 1) * frame) by (nonlinear_arith)
        requires
            s <= 1024 * (step + 1),
            1 <= frame,
    ;
}

/// Where a block starts in a reference of twice or half the size: at twice or
/// half its place and vector. The place is in sixteenths of a sample; `mv` is a
/// component in sixteenths that is within reach.
pub proof fn lemma_scaled_places(len: int, pos: int, mv: int)
    requires
        1 <= len,
        0 <= pos,
    ensures
        scaled_start(pos, mv, scale_of(2 * len, len), 1) == 2 * (16 * pos + mv),
        scaled_start(pos, mv, scale_of(2 * len, len), 2) == 2 * (16 * pos + mv),
        scaled_step(scale_of(2 * len, len)) == 32,
        scaled_start(pos, 2 * mv, scale_of(len, 2 * len), 1) == 8 * pos + mv,
        scaled_step(scale_of(len, 2 * len)) == 8,
{
    assert(2 * len * 0x4000 == 0x8000 * len);
    lemma_fundamental_div_mod_converse(2 * len * 0x4000, len, 0x8000, 0);
    assert(len * 0x4000 == 0x2000 * (2 * len));
    lemma_fundamental_div_mod_converse(len * 0x4000, 2 * len, 0x2000, 0);
    assert(scale_of(2 * len, len) == 0x8000 && scale_of(len, 2 * len) == 0x2000);
    assert(pos * 0x8000 / 0x4000 == 2 * pos);
    assert(mv * 0x8000 / 0x4000 == 2 * mv);
    assert(16 * (pos * 1) * 0x8000 / 0x4000 == 32 * pos);
    assert(16 * (pos * 2) * 0x8000 / 0x4000 == 64 * pos);
    assert((2 * mv) * 0x2000 / 0x4000 == mv);
    assert(pos * 0x2000 / 0x4000 == pos / 2);
    assert(16 * (pos * 1) * 0x2000 / 0x4000 == 8 * pos);
}

/// A component moves the start by the component scaled to the reference, rounded
/// down. A block of the luma plane, or of a plane of full size, that is not moved starts
/// at its place scaled to the reference, rounded down to a sixteenth. In a subsampled
/// plane its place is rounded down to a whole sample, and the fraction is that of its
/// luma place.
pub proof fn lemma_start_follows_vector(b: InterBlock, list: int, mr: int, mc: int)
    requires
        predictable(b),
        list == 0 || (list == 1 && b.p.ref_frame[1] > 0),
        moves_by(b, list, 0, mr),
        moves_by(b, list, 1, mc),
        stays_inside(b.plane, b.p.subsampling_y, mr, b.p.mi_row as int, b.p.mi_rows as int),
        stays_inside(b.plane, b.p.subsampling_x, mc, b.p.mi_col as int, b.p.mi_cols as int),
    ensures
        ({
            let r = ref_block(b.p, b.plane, b.x, b.y, b.block_idx, list);
            let view = b.p.refs[list]->0;
            let sx = view.width * 0x4000 / (b.p.frame_width as int);
            let sy = view.height * 0x4000 / (b.p.frame_height as int);
            let fx = sixteenths(b.plane, b.p.subsampling_x, mc);
            let fy = sixteenths(b.plane, b.p.subsampling_y, mr);
            &&& r.plane == *view.plane
            &&& r.x == fx * sx / 0x4000 + if b.plane > 0 && b.p.subsampling_x == 1 {
                16 * (b.x * sx / 0x4000) + (32 * b.x * sx / 0x4000) % 16
            } else {
                16 * b.x * sx / 0x4000
            }
            &&& r.y == fy * sy / 0x4000 + if b.plane > 0 && b.p.subsampling_y == 1 {
                16 * (b.y * sy / 0x4000) + (32 * b.y * sy / 0x4000) % 16
            } else {
                16 * b.y * sy / 0x4000
            }
        }),
{
    let view = b.p.refs[list]->0;
    lemma_near_start(b, list, mr, mc);
    let sx = scale_of(view.width as int, b.p.frame_width as int);
    let sy = scale_of(view.height as int, b.p.frame_height as int);
    lemma_start(b.x, sixteenths(b.plane, b.p.subsampling_x, mc), sx);
    lemma_start(b.y, sixteenths(b.plane, b.p.subsampling_y, mr), sy);
}

proof fn lemma_start(pos: int, mv: int, scale: int)
    requires
        0 <= pos,
    ensures
        scaled_start(pos, mv, scale, 1) == mv * scale / 0x4000 + 16 * pos * scale / 0x4000,
        scaled_start(pos, mv, scale, 2) == mv * scale / 0x4000 + (16 * (pos * scale / 0x4000) + (32
            * pos * scale / 0x4000) % 16),
{
    let n = pos * scale;
    assert(16 * (pos * 1) * scale == 16 * n) by (nonlinear_arith)
        requires
            n == pos * scale,
    ;
    assert(16 * pos * scale == 16 * n) by (nonlinear_arith)
        requires
            n == pos * scale,
    ;
    assert(16 * (pos * 2) * scale == 32 * n) by (nonlinear_arith)
        requires
            n == pos * scale,
    ;
    assert(32 * pos * scale == 32 * n) by (nonlinear_arith)
        requires
            n == pos * scale,
    ;
    assert((n / 0x4000) * 16 + (16 * n / 0x4000) % 16 == 16 * n / 0x4000);
}

} // verus!
