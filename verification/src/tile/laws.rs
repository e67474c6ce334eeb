//! What decoding the tiles of a frame does, in terms of squares, bools and
//! samples.

use vstd::arithmetic::power2::{lemma2_to64, pow2};
use vstd::prelude::*;
use crate::bool_coder::{
    after_bool, after_tree, decoded_bool, decoded_tree, BoolCoderError, BoolState,
};
use crate::framebuffer::{lemma_row_major, row_major};
use crate::prob_tables::{
    BLOCK_64X64, B_HEIGHT_LOG2_LOOKUP, B_WIDTH_LOG2_LOOKUP, KF_PARTITION_PROBS,
    MI_WIDTH_LOG2_LOOKUP, NUM_8X8_BLOCKS_HIGH_LOOKUP, NUM_8X8_BLOCKS_WIDE_LOOKUP, PARTITION_TREE,
    SS_SIZE_LOOKUP, SUBSIZE_LOOKUP,
};
use crate::tile::decoder::{
    block_refusal, context_at, context_filled, partition_counted, partition_of, square_side,
    stored_info, written, BlockContexts, BlockLayer, Residual, SampleWrite, TileFrame,
};
use crate::tile::partition::{
    after_partition, be32, context_bit, partition_at, read_bounds_ok, tile_offset, tiles_of,
    TileError,
};
use crate::tile::walk::{
    block_asked, block_pos, block_rebuilt, block_walked, pair_walked, partition_read, parts_walked,
    quarters_walked, row_walked, rows_walked, square_closed, square_marked, square_walked,
    step_outcome, tile_done, tile_entered, tile_refusal, tile_walked, Outcome, Stop, Walk,
};
use crate::tile::MiInfo;

verus! {

// ---------------------------------------------------------------------------
// Partitions.
// ---------------------------------------------------------------------------

/// Where a square reaches over no border, up to three bools tell its partition:
/// whether it is divided at all, then whether not just across, then whether not
/// just down. Over the lower border one bool tells a square that is cut across from
/// one that is split, over the right border one that is cut down; over both it is
/// split. The number of the partition is 0, 1, 2 or 3, in this order.
pub proof fn lemma_partition_bools(
    d: Seq<u8>,
    st: BoolState,
    probs: Seq<u8>,
    has_rows: bool,
    has_cols: bool,
)
    ensures
        ({
            let p = partition_at(d, st, probs, has_rows, has_cols);
            let after = after_partition(d, st, probs, has_rows, has_cols);
            let st1 = after_bool(d, st, probs[0]);
            let st2 = after_bool(d, st1, probs[1]);
            let st3 = after_bool(d, st2, probs[2]);
            &&& has_rows && has_cols ==> {
                &&& !decoded_bool(st, probs[0]) ==> p == 0 && after == st1
                &&& decoded_bool(st, probs[0]) && !decoded_bool(st1, probs[1]) ==> p == 1 && after
                    == st2
                &&& decoded_bool(st, probs[0]) && decoded_bool(st1, probs[1]) ==> after == st3 && p
                    == if decoded_bool(st2, probs[2]) {
                    3int
                } else {
                    2
                }
            }
            &&& !has_rows && has_cols ==> after == after_bool(d, st, probs[1]) && p
                == if decoded_bool(st, probs[1]) {
                3int
            } else {
                1
            }
            &&& has_rows && !has_cols ==> after == after_bool(d, st, probs[2]) && p
                == if decoded_bool(st, probs[2]) {
                3int
            } else {
                2
            }
            &&& !has_rows && !has_cols ==> after == st && p == 3
        }),
{
    reveal_with_fuel(decoded_tree, 4);
    reveal_with_fuel(after_tree, 4);
    let t = PARTITION_TREE@;
    assert(t[0] == 0 && t[1] == 2 && t[2] == -1 && t[3] == 4 && t[4] == -2 && t[5] == -3);
}

/// What a block of `2^log2` columns of 4 samples leaves along its edge tells later
/// squares whether it was narrower than they are.
proof fn lemma_narrower(log2: u8, size_log2: int)
    requires
        log2 <= 4,
        0 <= size_log2 <= 3,
    ensures
        context_bit((15int / pow2(log2 as nat) as int) as u8, (3 - size_log2) as nat) == (log2
            < size_log2 + 1),
{
    lemma2_to64();
    assert(log2 == 0 || log2 == 1 || log2 == 2 || log2 == 3 || log2 == 4);
    assert(size_log2 == 0 || size_log2 == 1 || size_log2 == 2 || size_log2 == 3);
    assert(
        15int / 1 == 15 && 15int / 2 == 7 && 15int / 4 == 3 && 15int / 8 == 1 && 15int / 16 == 0
    );
    assert(15int / 1 % 2 == 1 && 7int / 1 % 2 == 1 && 7int / 2 % 2 == 1 && 7int / 4 % 2 == 1 && 7int
        / 8 % 2 == 0 && 15int / 2 % 2 == 1 && 15int / 4 % 2 == 1 && 15int / 8 % 2 == 1);
    assert(3int / 1 % 2 == 1 && 3int / 2 % 2 == 1 && 3int / 4 % 2 == 0 && 3int / 8 % 2 == 0);
    assert(1int / 1 % 2 == 1 && 1int / 2 % 2 == 0 && 1int / 4 % 2 == 0 && 1int / 8 % 2 == 0);
    assert(0int / 1 % 2 == 0 && 0int / 2 % 2 == 0 && 0int / 4 % 2 == 0 && 0int / 8 % 2 == 0);
}

/// The context of a square's partition: four for each size, from the smallest on;
/// of these the first where the blocks above and to the left are as large as the
/// square or larger, 1 more where the one above is narrower and 2 more where the
/// one to the left is lower. Here one block each lies above and to the left, of
/// `2^above` columns and `2^left` rows of 4 samples.
pub proof fn lemma_partition_context(
    f: TileFrame,
    before_above: Seq<u8>,
    before_left: Seq<u8>,
    row: int,
    col: int,
    bsize: u8,
    above: u8,
    left: u8,
)
    requires
        bsize == 3 || bsize == 6 || bsize == 9 || bsize == 12,
        0 <= row,
        0 <= col,
        row % square_side(bsize) == 0,
        above <= 4,
        left <= 4,
        col + square_side(bsize) <= before_above.len(),
        before_left.len() == 8,
        row % 8 + square_side(bsize) <= 8,
        f.above_partition_context@ == context_filled(before_above, col, square_side(bsize), above),
        f.left_partition_context@ == context_filled(
            before_left,
            row % 8,
            square_side(bsize),
            left,
        ),
    ensures
        ({
            let size_log2 = bsize as int / 3 - 1;
            context_at(f, row, col, bsize) == 4 * size_log2 + (if left < size_log2 + 1 {
                2int
            } else {
                0
            }) + (if above < size_log2 + 1 {
                1int
            } else {
                0
            })
        }),
{
    let n = square_side(bsize);
    let size_log2 = bsize as int / 3 - 1;
    assert(MI_WIDTH_LOG2_LOOKUP[bsize as int] == size_log2);
    lemma_narrower(above, size_log2);
    lemma_narrower(left, size_log2);
    let a = f.above_partition_context@;
    let l = f.left_partition_context@;
    assert(a[col] == (15int / pow2(above as nat) as int) as u8);
    assert(l[row % 8] == (15int / pow2(left as nat) as int) as u8);
    let k = (3 - size_log2) as nat;
    assert(crate::tile::partition::any_bit(a, col, n, k) == context_bit(a[col], k)) by {
        if context_bit(a[col], k) {
            assert(context_bit(a[col], k));
        }
    }
    assert(crate::tile::partition::any_bit(l, row % 8, n, k) == context_bit(l[row % 8], k)) by {
        if context_bit(l[row % 8], k) {
            assert(context_bit(l[row % 8], k));
        }
    }
}

/// The partitions of an inter frame are counted, one by one; those of an intra
/// frame are not, and nothing else is.
pub proof fn lemma_partition_count(
    before: BlockContexts,
    after: BlockContexts,
    is_intra: bool,
    ctx: int,
    p: int,
)
    requires
        partition_counted(before, after, is_intra, ctx, p),
        0 <= ctx < 16,
        0 <= p < 4,
    ensures
        !is_intra && before.counts.partition[ctx][p] < u32::MAX ==> after.counts.partition[ctx][p]
            == before.counts.partition[ctx][p] + 1,
        is_intra ==> after.counts.partition[ctx][p] == before.counts.partition[ctx][p],
        forall|i: int, j: int|
            0 <= i < 16 && 0 <= j < 4 && (i != ctx || j != p)
                ==> #[trigger] after.counts.partition[i][j] == before.counts.partition[i][j],
        after.counts.intra_mode == before.counts.intra_mode,
        after.counts.token == before.counts.token,
        after.above_seg_pred_context == before.above_seg_pred_context,
        after.above_nonzero_context == before.above_nonzero_context,
{
    assert(after.counts.partition[ctx][p] == if !is_intra && before.counts.partition[ctx][p]
        < u32::MAX {
        before.counts.partition[ctx][p] + 1
    } else {
        before.counts.partition[ctx][p] as int
    });
}

// ---------------------------------------------------------------------------
// Blocks.
// ---------------------------------------------------------------------------

/// A block's samples are written in order, each to its own place: where several go
/// to one place the last counts, and places that none goes to stay.
pub proof fn lemma_last_write_counts(
    s: Seq<u16>,
    width: int,
    height: int,
    plane: int,
    writes: Seq<SampleWrite>,
    n: nat,
    x: int,
    y: int,
    k: int,
)
    requires
        s.len() == width * height,
        n <= writes.len(),
        0 <= x < width,
        0 <= y < height,
        -1 <= k < n,
        k >= 0 ==> writes[k].plane == plane && writes[k].x == x && writes[k].y == y,
        forall|i: int|
            k < i < n ==> !(#[trigger] writes[i].plane == plane && writes[i].x == x && writes[i].y
                == y),
    ensures
        written(s, width, height, plane, writes, n).len() == s.len(),
        written(s, width, height, plane, writes, n)[y * width + x] == if k >= 0 {
            writes[k].value
        } else {
            s[y * width + x]
        },
    decreases n,
{
    lemma_row_major(width, height, x, y);
    assert(height * width == width * height) by (nonlinear_arith);
    lemma_written_len(s, width, height, plane, writes, n);
    if n > 0 {
        let w = writes[n - 1];
        lemma_written_len(s, width, height, plane, writes, (n - 1) as nat);
        if k < n - 1 {
            assert(!(writes[n - 1].plane == plane && writes[n - 1].x == x && writes[n - 1].y == y));
            lemma_last_write_counts(s, width, height, plane, writes, (n - 1) as nat, x, y, k);
            if w.plane == plane && w.x < width && w.y < height {
                lemma_row_major(width, height, w.x as int, w.y as int);
                lemma_other_place(width, height, x, y, w.x as int, w.y as int);
            }
        }
    }
}

proof fn lemma_written_len(
    s: Seq<u16>,
    width: int,
    height: int,
    plane: int,
    writes: Seq<SampleWrite>,
    n: nat,
)
    requires
        s.len() == width * height,
    ensures
        written(s, width, height, plane, writes, n).len() == s.len(),
    decreases n,
{
    if n > 0 {
        lemma_written_len(s, width, height, plane, writes, (n - 1) as nat);
        let w = writes[n - 1];
        if w.x < width && w.y < height {
            lemma_row_major(width, height, w.x as int, w.y as int);
            assert(height * width == width * height) by (nonlinear_arith);
        }
    }
}

proof fn lemma_other_place(width: int, height: int, x: int, y: int, x2: int, y2: int)
    requires
        0 <= x < width,
        0 <= y < height,
        0 <= x2 < width,
        0 <= y2 < height,
        x != x2 || y != y2,
    ensures
        row_major(width, x, y) != row_major(width, x2, y2),
{
    if y != y2 {
        if y < y2 {
            assert(y * width + width <= y2 * width) by (nonlinear_arith)
                requires
                    y + 1 <= y2,
                    0 <= width,
            ;
        } else {
            assert(y2 * width + width <= y * width) by (nonlinear_arith)
                requires
                    y2 + 1 <= y,
                    0 <= width,
            ;
        }
    }
}

/// A block is stored as skipped where it says so, and where it is an inter block of
/// 8x8 or more without a coefficient; all else that is known of it stays.
pub proof fn lemma_stored_skip(info: MiInfo, size: u8, eob_total: u32)
    ensures
        ({
            let m = stored_info(info, size, eob_total);
            &&& info.skip ==> m.skip
            &&& eob_total > 0 || info.ref_frame[0] == 0 || size < 3 ==> m.skip == info.skip
            &&& eob_total == 0 && info.ref_frame[0] != 0 && size >= 3 ==> m.skip
            &&& m == (MiInfo { skip: m.skip, ..info })
        }),
{
}

/// A reference is usable: there is a frame, and it is at most twice as wide and
/// twice as high as the current one.
pub open spec fn usable(f: TileFrame, ref_frame: u8) -> bool {
    f.resolved_refs[ref_frame - 1] is Some && f.resolved_refs[ref_frame - 1]->0.width <= 2
        * f.frame_width && f.resolved_refs[ref_frame - 1]->0.height <= 2 * f.frame_height
}

/// A block with sound mode info is accepted if it is intra or all its references
/// are usable. Of references that are not, the first decides the error: there is no
/// frame, or it is too large.
pub proof fn lemma_block_acceptance(f: TileFrame, size: u8, info: MiInfo)
    requires
        size < 13,
        info.mi_size == size,
        info.tx_size <= 3,
        info.segment_id < 8,
        info.ref_frame[0] < 4,
        info.ref_frame[1] < 4,
        SS_SIZE_LOOKUP[if size < 3 {
            3
        } else {
            size as int
        }][f.subsampling_x as int][f.subsampling_y as int] != 255,
    ensures
        ({
            let a = info.ref_frame[0];
            let b = info.ref_frame[1];
            let e = block_refusal(f, size, info);
            &&& a == 0 ==> e is None
            &&& a != 0 && usable(f, a) && (b == 0 || usable(f, b)) ==> e is None
            &&& a != 0 && f.resolved_refs[a - 1] is None ==> e == Some(TileError::MissingReference)
            &&& a != 0 && f.resolved_refs[a - 1] is Some && !usable(f, a) ==> e == Some(
                TileError::RefFrameSizeOutOfRange,
            )
            &&& a != 0 && usable(f, a) && b != 0 && f.resolved_refs[b - 1] is None ==> e == Some(
                TileError::MissingReference,
            )
            &&& a != 0 && usable(f, a) && b != 0 && f.resolved_refs[b - 1] is Some && !usable(f, b)
                ==> e == Some(TileError::RefFrameSizeOutOfRange)
        }),
{
}

// ---------------------------------------------------------------------------
// Order.
// ---------------------------------------------------------------------------

/// Four squares are decoded in the order in which they are read: upper left, upper
/// right, lower left, lower right.
#[verifier::spinoff_prover]
pub proof fn lemma_quarter_order<L: BlockLayer>(
    before: Walk<L>,
    row: int,
    col: int,
    size: u8,
    after: Walk<L>,
) -> (r: (Walk<L>, Walk<L>, Walk<L>))
    requires
        quarters_walked(before, row, col, size, after, None),
    ensures
        ({
            let n = square_side(size);
            &&& square_walked(before, row, col, size, r.0, None)
            &&& square_walked(r.0, row, col + n, size, r.1, None)
            &&& square_walked(r.1, row + n, col, size, r.2, None)
            &&& square_walked(r.2, row + n, col + n, size, after, None)
        }),
{
    reveal(quarters_walked);
    assert(exists|states: Seq<Walk<L>>|
        {
            &&& #[trigger] crate::tile::walk::chain_of(states, 4, before, after, None)
            &&& forall|k: int|
                #![trigger states[k]]
                0 <= k < states.len() - 1 ==> square_walked(
                    states[k],
                    row + k / 2 * square_side(size),
                    col + k % 2 * square_side(size),
                    size,
                    states[k + 1],
                    step_outcome(states, k, None),
                )
        });
    let states = choose|states: Seq<Walk<L>>|
        {
            &&& #[trigger] crate::tile::walk::chain_of(states, 4, before, after, None)
            &&& forall|k: int|
                #![trigger states[k]]
                0 <= k < states.len() - 1 ==> square_walked(
                    states[k],
                    row + k / 2 * square_side(size),
                    col + k % 2 * square_side(size),
                    size,
                    states[k + 1],
                    step_outcome(states, k, None),
                )
        };
    let n = square_side(size);
    assert(0int / 2 * n == 0 && 0int % 2 * n == 0);
    assert(1int / 2 * n == 0 && 1int % 2 * n == n);
    assert(2int / 2 * n == n && 2int % 2 * n == 0);
    assert(3int / 2 * n == n && 3int % 2 * n == n);
    assert(states.len() == 5);
    assert(states[0] == before && states[4] == after);
    let (a, b, c) = (states[1], states[2], states[3]);
    assert(square_walked(states[0], row, col, size, states[1], None));
    assert(square_walked(states[1], row, col + n, size, states[2], None));
    assert(square_walked(states[2], row + n, col, size, states[3], None));
    assert(square_walked(states[3], row + n, col + n, size, states[4], None));
    (a, b, c)
}

/// Of two halves the upper or left one is decoded first; the other only where it
/// lies in the frame.
pub proof fn lemma_halves_order<L: BlockLayer>(
    before: Walk<L>,
    row: int,
    col: int,
    row2: int,
    col2: int,
    second: bool,
    size: u8,
    after: Walk<L>,
) -> (mid: Walk<L>)
    requires
        pair_walked(before, row, col, row2, col2, second, size, after, None),
    ensures
        block_walked(before, row, col, size, mid, None),
        second ==> block_walked(mid, row2, col2, size, after, None),
        !second ==> after == mid,
{
    reveal(pair_walked);
    let (mid, first) = choose|mid: Walk<L>, first: Outcome|
        {
            &&& #[trigger] block_walked(before, row, col, size, mid, first)
            &&& if first is Some || !second {
                after == mid && first is None
            } else {
                block_walked(mid, row2, col2, size, after, None)
            }
        };
    mid
}

/// The rows of superblocks of a tile are decoded from top to bottom, and the
/// superblocks of a row from left to right, 8 units apart; the contexts to the left
/// are cleared before each row.
pub proof fn lemma_superblock_order<L: BlockLayer>(before: Walk<L>, after: Walk<L>) -> (states: Seq<
    Walk<L>,
>)
    requires
        rows_walked(before, after, None),
        before.tiles.frame.mi_row_start <= before.tiles.frame.mi_row_end,
    ensures
        ({
            let f = before.tiles.frame;
            &&& 8 * (states.len() - 1) >= f.mi_row_end - f.mi_row_start
            &&& 8 * (states.len() - 2) < f.mi_row_end - f.mi_row_start
            &&& states.len() >= 1
            &&& states[0] == before
            &&& states.last() == after
            &&& forall|k: int|
                #![trigger states[k]]
                0 <= k < states.len() - 1 ==> row_walked(
                    states[k],
                    f.mi_row_start + 8 * k,
                    states[k + 1],
                    None,
                )
        }),
{
    reveal(rows_walked);
    let f = before.tiles.frame;
    let states = choose|states: Seq<Walk<L>>|
        {
            &&& #[trigger] crate::tile::walk::chain_of(
                states,
                crate::tile::walk::superblocks_between(f.mi_row_start as int, f.mi_row_end as int),
                before,
                after,
                None,
            )
            &&& forall|k: int|
                #![trigger states[k]]
                0 <= k < states.len() - 1 ==> row_walked(
                    states[k],
                    f.mi_row_start + 8 * k,
                    states[k + 1],
                    step_outcome(states, k, None),
                )
        };
    states
}

/// A row of superblocks starts with nothing known of what is to the left.
pub proof fn lemma_row_order<L: BlockLayer>(before: Walk<L>, row: int, after: Walk<L>) -> (states:
    Seq<Walk<L>>)
    requires
        row_walked(before, row, after, None),
        before.tiles.frame.mi_col_start <= before.tiles.frame.mi_col_end,
    ensures
        ({
            let f = before.tiles.frame;
            &&& 8 * (states.len() - 1) >= f.mi_col_end - f.mi_col_start
            &&& 8 * (states.len() - 2) < f.mi_col_end - f.mi_col_start
            &&& states.len() >= 1
            &&& states.last() == after
            &&& states[0].st == before.st
            &&& states[0].tiles.frame.above_partition_context == f.above_partition_context
            &&& forall|i: int|
                0 <= i < states[0].tiles.frame.left_partition_context@.len()
                    ==> #[trigger] states[0].tiles.frame.left_partition_context@[i] == 0
            &&& forall|k: int|
                #![trigger states[k]]
                0 <= k < states.len() - 1 ==> square_walked(
                    states[k],
                    row,
                    f.mi_col_start + 8 * k,
                    BLOCK_64X64,
                    states[k + 1],
                    None,
                )
        }),
{
    reveal(row_walked);
    let f = before.tiles.frame;
    let (cleared, states) = choose|cleared: Walk<L>, states: Seq<Walk<L>>|
        {
            &&& #[trigger] crate::tile::walk::left_cleared(before, cleared)
            &&& #[trigger] crate::tile::walk::chain_of(
                states,
                crate::tile::walk::superblocks_between(f.mi_col_start as int, f.mi_col_end as int),
                cleared,
                after,
                None,
            )
            &&& forall|k: int|
                #![trigger states[k]]
                0 <= k < states.len() - 1 ==> square_walked(
                    states[k],
                    row,
                    f.mi_col_start + 8 * k,
                    BLOCK_64X64,
                    states[k + 1],
                    step_outcome(states, k, None),
                )
        };
    states
}

/// Tile number `r * n + c`, where there are `n` columns of tiles, is the one in row
/// `r` and column `c`.
pub proof fn lemma_tile_order<L: BlockLayer>(
    before: Stop<L>,
    r: int,
    c: int,
    bytes: Seq<u8>,
    after: Stop<L>,
    res: Outcome,
) -> (entered: Stop<L>)
    requires
        tile_done(
            before,
            r * (pow2(before.tiles.frame.tile_cols_log2 as nat) as int) + c,
            bytes,
            after,
            res,
        ),
        0 <= r,
        0 <= c < pow2(before.tiles.frame.tile_cols_log2 as nat),
    ensures
        tile_entered(before.tiles, r, c, entered.tiles),
        entered.layer == before.layer,
        tile_walked(entered, bytes, after, res),
{
    reveal(tile_done);
    let cols = pow2(before.tiles.frame.tile_cols_log2 as nat) as int;
    let k = r * cols + c;
    vstd::arithmetic::div_mod::lemma_fundamental_div_mod_converse(k, cols, r, c);
    assert(r * cols == cols * r) by (nonlinear_arith);
    let entered = choose|entered: crate::tile::decoder::TileDecoder|
        {
            &&& #[trigger] tile_entered(before.tiles, k / cols, k % cols, entered)
            &&& tile_walked(
                crate::tile::walk::stop_at(entered, before.layer),
                bytes,
                after,
                res,
            )
        };
    crate::tile::walk::stop_at(entered, before.layer)
}

/// A tile that has been read is sound if its decoder asked for at most 16 bytes
/// more than there are, and left at most 128 bytes unread.
pub proof fn lemma_tile_end(st: BoolState, len: int)
    requires
        0 <= st.over,
        0 <= st.pos <= 8 * len,
    ensures
        read_bounds_ok(st, len) == (st.over <= 8 * 16 && 8 * len - st.pos <= 8 * 128),
{
}

// ---------------------------------------------------------------------------
// Tile data.
// ---------------------------------------------------------------------------

/// Tiles joined with the size of each but the last before it, most significant
/// byte first.
pub open spec fn joined_tiles(tiles: Seq<Seq<u8>>) -> Seq<u8>
    decreases tiles.len(),
{
    if tiles.len() == 0 {
        Seq::empty()
    } else if tiles.len() == 1 {
        tiles[0]
    } else {
        let n = tiles[0].len() as int;
        seq![
            (n / 0x100_0000) as u8,
            (n / 0x1_0000 % 256) as u8,
            (n / 256 % 256) as u8,
            (n % 256) as u8,
        ] + tiles[0] + joined_tiles(tiles.skip(1))
    }
}

/// Joined tiles are told apart again.
pub proof fn lemma_joined_tiles_split(tiles: Seq<Seq<u8>>)
    requires
        tiles.len() >= 1,
        forall|i: int| 0 <= i < tiles.len() ==> (#[trigger] tiles[i]).len() < 0x1_0000_0000,
    ensures
        tiles_of(joined_tiles(tiles), tiles.len()) == Some(tiles),
    decreases tiles.len(),
{
    let data = joined_tiles(tiles);
    if tiles.len() == 1 {
        assert(seq![tiles[0]] =~= tiles);
    } else {
        let n = tiles[0].len() as int;
        let rest = tiles.skip(1);
        assert forall|i: int| 0 <= i < rest.len() implies (#[trigger] rest[i]).len()
            < 0x1_0000_0000 by {
            assert(rest[i] == tiles[i + 1]);
        }
        lemma_joined_tiles_split(rest);
        assert(data[0] == (n / 0x100_0000) as u8);
        assert(be32(data) == n);
        assert(data.subrange(4, 4 + n) =~= tiles[0]);
        assert(data.skip(4 + n) =~= joined_tiles(rest));
        assert(seq![tiles[0]] + rest =~= tiles);
    }
}

// ---------------------------------------------------------------------------
// Squares and questions.
// ---------------------------------------------------------------------------

/// A block has a neighbour above unless it is in the first row of the frame, and one to
/// the left unless it is in the first column of its tile.
pub proof fn lemma_block_neighbours(f: TileFrame, row: u32, col: u32, size: u8)
    ensures
        ({
            let b = block_pos(f, row as int, col as int, size);
            &&& b.row == row && b.col == col && b.size == size
            &&& b.avail_above <==> row != 0
            &&& b.avail_left <==> col > f.mi_col_start
        }),
{
}

/// The layer is asked for mode info by its method for the kind of frame, and to
/// reconstruct a block as an inter block where its first reference is not the intra one;
/// both with the state as it is.
pub proof fn lemma_questions<L: BlockLayer>(
    before: Walk<L>,
    row: int,
    col: int,
    size: u8,
    asked: Walk<L>,
    reply: Result<MiInfo, TileError>,
    info: MiInfo,
    rebuilt: Walk<L>,
    residual: Residual,
)
    requires
        block_asked(before, row, col, size, asked, reply),
        block_rebuilt(asked, row, col, size, info, rebuilt, residual),
    ensures
        ({
            let f = before.tiles.frame;
            let b = block_pos(f, row, col, size);
            &&& f.frame_is_intra ==> L::intra_info_says(
                before.layer,
                f,
                before.tiles.contexts,
                before.data,
                before.st,
                b,
                asked.layer,
                asked.tiles.contexts,
                asked.st,
                reply,
            )
            &&& !f.frame_is_intra ==> L::inter_info_says(
                before.layer,
                f,
                before.tiles.contexts,
                before.data,
                before.st,
                b,
                asked.layer,
                asked.tiles.contexts,
                asked.st,
                reply,
            )
            &&& L::residual_says(
                asked.layer,
                f,
                asked.tiles.contexts,
                before.data,
                asked.st,
                b,
                info,
                info.ref_frame[0] != 0,
                rebuilt.layer,
                rebuilt.tiles.contexts,
                rebuilt.st,
                residual,
            )
            &&& rebuilt.tiles.frame == f
        }),
{
}

/// What a square consists of, by its partition: itself; two halves one below the other
/// or side by side, the second where the middle of the square lies in the frame; or
/// four squares. Squares of 8x8 are one block of the size that the partition gives.
/// Sizes are numbered so that a square's halves and quarters come right before it.
pub proof fn lemma_parts_of_a_square<L: BlockLayer>(
    before: Walk<L>,
    row: int,
    col: int,
    bsize: u8,
    p: int,
    after: Walk<L>,
    res: Outcome,
)
    requires
        parts_walked(before, row, col, bsize, p, after, res),
        bsize == 3 || bsize == 6 || bsize == 9 || bsize == 12,
        0 <= p <= 3,
    ensures
        ({
            let f = before.tiles.frame;
            let half = if bsize == 12 {
                4int
            } else if bsize == 9 {
                2
            } else {
                1
            };
            &&& p == 0 || bsize == 3 ==> block_walked(
                before,
                row,
                col,
                (bsize - p) as u8,
                after,
                res,
            )
            &&& p == 1 && bsize > 3 ==> pair_walked(
                before,
                row,
                col,
                row + half,
                col,
                row + half < f.mi_rows,
                (bsize - 1) as u8,
                after,
                res,
            )
            &&& p == 2 && bsize > 3 ==> pair_walked(
                before,
                row,
                col,
                row,
                col + half,
                col + half < f.mi_cols,
                (bsize - 2) as u8,
                after,
                res,
            )
            &&& p == 3 && bsize > 3 ==> quarters_walked(
                before,
                row,
                col,
                (bsize - 3) as u8,
                after,
                res,
            )
        }),
{
    reveal(parts_walked);
    reveal(quarters_walked);
    assert(p == 0 || p == 1 || p == 2 || p == 3);
    assert(SUBSIZE_LOOKUP[p][bsize as int] == bsize - p);
}

/// A square that starts outside the frame holds nothing. Otherwise its partition is
/// read, its parts are decoded, and unless these are squares of their own the contexts
/// along it are set to what blocks of their size leave.
pub proof fn lemma_square_steps<L: BlockLayer>(
    before: Walk<L>,
    row: int,
    col: int,
    bsize: u8,
    after: Walk<L>,
    res: Outcome,
) -> (r: (Walk<L>, Walk<L>))
    requires
        square_walked(before, row, col, bsize, after, res),
        bsize == 3 || bsize == 6 || bsize == 9 || bsize == 12,
    ensures
        ({
            let f = before.tiles.frame;
            let p = partition_of(before.data, before.st, f, row, col, bsize);
            &&& row >= f.mi_rows || col >= f.mi_cols ==> after == before && res is None
            &&& row < f.mi_rows && col < f.mi_cols ==> {
                &&& partition_read(before, row, col, bsize, r.0)
                &&& parts_walked(r.0, row, col, bsize, p, r.1, res)
                &&& res is Some || (bsize > 3 && p == 3) ==> after == r.1
                &&& res is None && (bsize == 3 || p != 3) ==> square_marked(
                    r.1,
                    row,
                    col,
                    bsize,
                    SUBSIZE_LOOKUP[p][bsize as int],
                    after,
                )
            }
        }),
{
    reveal(square_walked);
    reveal(parts_walked);
    let f = before.tiles.frame;
    if row < f.mi_rows && col < f.mi_cols {
        let p = partition_of(before.data, before.st, f, row, col, bsize);
        let (read, done) = choose|read: Walk<L>, done: Walk<L>|
            {
                &&& #[trigger] partition_read(before, row, col, bsize, read)
                &&& parts_walked(read, row, col, bsize, p, done, res)
                &&& #[trigger] square_closed(done, row, col, bsize, p, after, res)
            };
        (read, done)
    } else {
        (before, before)
    }
}

/// A tile without bytes, or whose first bit is set, cannot be read; any other can.
pub proof fn lemma_tile_start(bytes: Seq<u8>)
    ensures
        bytes.len() == 0 ==> tile_refusal(bytes) == Some(
            TileError::BoolCoder(BoolCoderError::EmptyBuffer),
        ),
        bytes.len() > 0 && bytes[0] >= 128 ==> tile_refusal(bytes) == Some(
            TileError::BoolCoder(BoolCoderError::InvalidMarker),
        ),
        bytes.len() > 0 && bytes[0] < 128 ==> tile_refusal(bytes) is None,
{
    if bytes.len() > 0 {
        crate::bool_coder::lemma_decoder_start(bytes);
    }
}

/// A partition is read with the fixed probabilities of its context in an intra frame,
/// with those of the frame's tables in another; a square counts as lying in the frame
/// each way where its middle does.
pub proof fn lemma_partition_of_square(
    d: Seq<u8>,
    st: BoolState,
    f: TileFrame,
    row: int,
    col: int,
    bsize: u8,
)
    requires
        bsize == 3 || bsize == 6 || bsize == 9 || bsize == 12,
    ensures
        ({
            let ctx = context_at(f, row, col, bsize);
            let probs = if f.frame_is_intra {
                KF_PARTITION_PROBS[ctx]@
            } else {
                f.probs.partition_probs[ctx]@
            };
            let half = if bsize == 12 {
                4int
            } else if bsize == 9 {
                2
            } else if bsize == 6 {
                1
            } else {
                0
            };
            partition_of(d, st, f, row, col, bsize) == partition_at(
                d,
                st,
                probs,
                row + half < f.mi_rows,
                col + half < f.mi_cols,
            )
        }),
{
}

/// Along the upper edge a square leaves what its parts' width says, along the left edge
/// what their height says: 15 shifted down by the number of doublings of 4 samples.
pub proof fn lemma_square_marks<L: BlockLayer>(
    before: Walk<L>,
    row: int,
    col: int,
    bsize: u8,
    size: u8,
    after: Walk<L>,
    i: int,
    w: nat,
    h: nat,
)
    requires
        square_marked(before, row, col, bsize, size, after),
        3 <= size < 13,
        pow2(w) == 2 * NUM_8X8_BLOCKS_WIDE_LOOKUP[size as int],
        pow2(h) == 2 * NUM_8X8_BLOCKS_HIGH_LOOKUP[size as int],
        w <= 4,
        h <= 4,
        0 <= i,
    ensures
        ({
            let f = before.tiles.frame;
            let g = after.tiles.frame;
            let above = f.above_partition_context@;
            let left = f.left_partition_context@;
            &&& i < above.len() ==> g.above_partition_context@[i] == if col <= i < col + square_side(
                bsize,
            ) {
                (15int / pow2(w) as int) as u8
            } else {
                above[i]
            }
            &&& i < left.len() ==> g.left_partition_context@[i] == if row % 8 <= i < row % 8
                + square_side(bsize) {
                (15int / pow2(h) as int) as u8
            } else {
                left[i]
            }
        }),
{
    lemma2_to64();
    assert(size == 3 || size == 4 || size == 5 || size == 6 || size == 7 || size == 8 || size == 9
        || size == 10 || size == 11 || size == 12);
    assert(w == 0 || w == 1 || w == 2 || w == 3 || w == 4);
    assert(h == 0 || h == 1 || h == 2 || h == 3 || h == 4);
    assert(B_WIDTH_LOG2_LOOKUP[size as int] == w);
    assert(B_HEIGHT_LOG2_LOOKUP[size as int] == h);
}

/// Tiles share the superblocks of a frame as evenly as can be: tile `k` of `2^log2` starts
/// at the whole superblock at or before its exact share.
pub proof fn lemma_even_tiles(k: int, mis: int, log2: nat, q: int)
    requires
        0 <= k < pow2(log2),
        0 <= mis,
        tile_offset(k, mis, log2) == 8 * q,
        8 * q < mis,
    ensures
        q * pow2(log2) <= k * ((mis + 7) / 8) < (q + 1) * pow2(log2),
{
    let d = pow2(log2) as int;
    vstd::arithmetic::power2::lemma_pow2_pos(log2);
    let n = k * ((mis + 7) / 8);
    vstd::arithmetic::div_mod::lemma_fundamental_div_mod(n, d);
    vstd::arithmetic::div_mod::lemma_mod_bound(n, d);
    assert(n / d == q);
    assert(q * d <= n < (q + 1) * d) by (nonlinear_arith)
        requires
            n == d * q + n % d,
            0 <= n % d < d,
    ;
}

/// The bounds of a tile are those of its row and column.
pub proof fn lemma_tile_bounds(
    before: crate::tile::decoder::TileDecoder,
    r: int,
    c: int,
    after: crate::tile::decoder::TileDecoder,
)
    requires
        tile_entered(before, r, c, after),
    ensures
        ({
            let f = before.frame;
            let g = after.frame;
            &&& g.mi_row_start == tile_offset(r, f.mi_rows as int, f.tile_rows_log2 as nat)
            &&& g.mi_row_end == tile_offset(r + 1, f.mi_rows as int, f.tile_rows_log2 as nat)
            &&& g.mi_col_start == tile_offset(c, f.mi_cols as int, f.tile_cols_log2 as nat)
            &&& g.mi_col_end == tile_offset(c + 1, f.mi_cols as int, f.tile_cols_log2 as nat)
            &&& g.planes == f.planes
            &&& g.mi_grid == f.mi_grid
            &&& after.contexts == before.contexts
        }),
{
}

} // verus!
