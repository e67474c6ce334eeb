//! The order in which the parts of a frame are decoded.
//!
//! Decoding is a walk: over the tiles, over the superblocks of a tile, and down
//! the partitions of a superblock to its blocks. What a block holds is for the
//! block layer to say; the relations here say what it is asked, and tie
//! everything else down. Each of them relates the state before a part, the state
//! after it and the outcome. A part whose inner part fails ends there, with the
//! same error.

use vstd::arithmetic::power2::pow2;
use vstd::prelude::*;
use crate::bool_coder::{
    after_bool, decoded_bool, loaded_state, BoolCoderError, BoolDecoder, BoolState,
};
use crate::prob_tables::{
    BLOCK_64X64, BLOCK_8X8, B_HEIGHT_LOG2_LOOKUP, B_WIDTH_LOG2_LOOKUP, PARTITION_HORZ,
    PARTITION_NONE, PARTITION_SPLIT, PARTITION_VERT, SUBSIZE_LOOKUP,
};
use crate::common::INTRA_FRAME;
use crate::tile::decoder::{
    all_zero, block_refusal, block_stored, context_at, context_filled, has_cols, has_rows,
    is_square, partition_counted, partition_of, partition_probs_of, square_side, units_high,
    units_wide, BlockLayer, BlockPos, Residual, TileDecoder, TileFrame,
};
use crate::tile::partition::{after_partition, read_bounds_ok, tile_offset, TileError};
use crate::tile::MiInfo;

verus! {

/// A place in the walk: the state of the frame, of the bool decoder over the
/// tile's data, and of the block layer.
pub struct Walk<L> {
    pub tiles: TileDecoder,
    pub data: Seq<u8>,
    pub st: BoolState,
    pub layer: L,
}

/// The place that a tile decoder, a bool decoder and a block layer are at.
pub open spec fn walk_at<L: BlockLayer>(
    tiles: TileDecoder,
    r: BoolDecoder<'_>,
    layer: L,
) -> Walk<L> {
    Walk { tiles, data: r.bytes(), st: r.state(), layer }
}

/// A place between tiles: the state of the frame and of the block layer.
pub struct Stop<L> {
    pub tiles: TileDecoder,
    pub layer: L,
}

/// The place between tiles that a tile decoder and a block layer are at.
pub open spec fn stop_at<L: BlockLayer>(tiles: TileDecoder, layer: L) -> Stop<L> {
    Stop { tiles, layer }
}

/// The outcome of one part: why it failed, if it did.
pub type Outcome = Option<TileError>;

/// The outcome that a result stands for.
pub open spec fn outcome(res: Result<(), TileError>) -> Outcome {
    match res {
        Ok(_) => None,
        Err(e) => Some(e),
    }
}

// ---------------------------------------------------------------------------
// Blocks.
// ---------------------------------------------------------------------------

/// The units of a block.
pub open spec fn block_units(row: int, col: int, size: u8) -> Set<(int, int)> {
    Set::new(
        |u: (int, int)|
            row <= u.0 < row + units_high(size) && col <= u.1 < col + units_wide(size),
    )
}

/// The block of a size at a place, as the block layer is told of it: whether
/// there is a block above in the frame, and one to the left in the tile.
pub open spec fn block_pos(f: TileFrame, row: int, col: int, size: u8) -> BlockPos {
    BlockPos {
        row: row as u32,
        col: col as u32,
        size,
        avail_above: row > 0,
        avail_left: col > f.mi_col_start,
    }
}

/// The mode info of a block has been asked for: of the intra reader in an intra
/// frame, of the inter reader in another.
pub open spec fn block_asked<L: BlockLayer>(
    before: Walk<L>,
    row: int,
    col: int,
    size: u8,
    after: Walk<L>,
    reply: Result<MiInfo, TileError>,
) -> bool {
    let f = before.tiles.frame;
    &&& after.data == before.data
    &&& after.tiles.frame == f
    &&& after.tiles.visited == before.tiles.visited
    &&& if f.frame_is_intra {
        L::intra_info_says(
            before.layer,
            f,
            before.tiles.contexts,
            before.data,
            before.st,
            block_pos(f, row, col, size),
            after.layer,
            after.tiles.contexts,
            after.st,
            reply,
        )
    } else {
        L::inter_info_says(
            before.layer,
            f,
            before.tiles.contexts,
            before.data,
            before.st,
            block_pos(f, row, col, size),
            after.layer,
            after.tiles.contexts,
            after.st,
            reply,
        )
    }
}

/// A block has been reconstructed.
pub open spec fn block_rebuilt<L: BlockLayer>(
    before: Walk<L>,
    row: int,
    col: int,
    size: u8,
    info: MiInfo,
    after: Walk<L>,
    residual: Residual,
) -> bool {
    let f = before.tiles.frame;
    &&& after.data == before.data
    &&& after.tiles.frame == f
    &&& after.tiles.visited == before.tiles.visited
    &&& L::residual_says(
        before.layer,
        f,
        before.tiles.contexts,
        before.data,
        before.st,
        block_pos(f, row, col, size),
        info,
        info.ref_frame[0] != INTRA_FRAME,
        after.layer,
        after.tiles.contexts,
        after.st,
        residual,
    )
}

/// A block has been stored; the bool decoder, the contexts and the layer stay.
pub open spec fn block_kept<L: BlockLayer>(
    before: Walk<L>,
    row: int,
    col: int,
    size: u8,
    info: MiInfo,
    residual: Residual,
    after: Walk<L>,
) -> bool {
    let f = before.tiles.frame;
    let g = after.tiles.frame;
    &&& after.data == before.data
    &&& after.st == before.st
    &&& after.layer == before.layer
    &&& after.tiles.contexts == before.tiles.contexts
    &&& block_stored(f, g, row, col, size, info, residual)
    &&& g.same_setup(&f)
    &&& g.same_tile(&f)
    &&& g.same_partition_contexts(&f)
    &&& after.tiles.visited@ == before.tiles.visited@.union(block_units(row, col, size))
}

/// What becomes of a block after its mode info: the layer fails, or the block is
/// refused, or it is reconstructed and stored.
pub open spec fn block_answered<L: BlockLayer>(
    asked: Walk<L>,
    row: int,
    col: int,
    size: u8,
    reply: Result<MiInfo, TileError>,
    after: Walk<L>,
    res: Outcome,
) -> bool {
    match reply {
        Err(e) => res == Some(e) && after == asked,
        Ok(info) => match block_refusal(asked.tiles.frame, size, info) {
            Some(e) => res == Some(e) && after == asked,
            None => res is None && exists|rebuilt: Walk<L>, residual: Residual|
                {
                    &&& #[trigger] block_rebuilt(asked, row, col, size, info, rebuilt, residual)
                    &&& block_kept(rebuilt, row, col, size, info, residual, after)
                },
        },
    }
}

/// A block: its mode info is asked for, and what is answered decides.
#[verifier::opaque]
pub open spec fn block_walked<L: BlockLayer>(
    before: Walk<L>,
    row: int,
    col: int,
    size: u8,
    after: Walk<L>,
    res: Outcome,
) -> bool {
    exists|asked: Walk<L>, reply: Result<MiInfo, TileError>|
        {
            &&& #[trigger] block_asked(before, row, col, size, asked, reply)
            &&& block_answered(asked, row, col, size, reply, after, res)
        }
}

/// Two blocks, the second only where it is in the frame.
#[verifier::opaque]
pub open spec fn pair_walked<L: BlockLayer>(
    before: Walk<L>,
    row: int,
    col: int,
    row2: int,
    col2: int,
    second: bool,
    size: u8,
    after: Walk<L>,
    res: Outcome,
) -> bool {
    exists|mid: Walk<L>, first: Outcome|
        {
            &&& #[trigger] block_walked(before, row, col, size, mid, first)
            &&& if first is Some || !second {
                after == mid && res == first
            } else {
                block_walked(mid, row2, col2, size, after, res)
            }
        }
}

// ---------------------------------------------------------------------------
// Squares.
// ---------------------------------------------------------------------------

/// The partition of a square has been read and counted.
pub open spec fn partition_read<L: BlockLayer>(
    before: Walk<L>,
    row: int,
    col: int,
    bsize: u8,
    after: Walk<L>,
) -> bool {
    let f = before.tiles.frame;
    let ctx = context_at(f, row, col, bsize);
    &&& after.data == before.data
    &&& after.st == after_partition(
        before.data,
        before.st,
        partition_probs_of(f, ctx),
        has_rows(f, row, bsize),
        has_cols(f, col, bsize),
    )
    &&& after.layer == before.layer
    &&& after.tiles.frame == f
    &&& after.tiles.visited == before.tiles.visited
    &&& partition_counted(
        before.tiles.contexts,
        after.tiles.contexts,
        f.frame_is_intra,
        ctx,
        partition_of(before.data, before.st, f, row, col, bsize),
    )
}

/// The partition contexts along a square are those of parts of the given size.
pub open spec fn square_marked<L: BlockLayer>(
    before: Walk<L>,
    row: int,
    col: int,
    bsize: u8,
    size: u8,
    after: Walk<L>,
) -> bool {
    let f = before.tiles.frame;
    let g = after.tiles.frame;
    &&& after.data == before.data
    &&& after.st == before.st
    &&& after.layer == before.layer
    &&& g.same_setup(&f)
    &&& g.same_tile(&f)
    &&& g.mi_grid == f.mi_grid
    &&& g.planes == f.planes
    &&& after.tiles.contexts == before.tiles.contexts
    &&& after.tiles.visited == before.tiles.visited
    &&& g.above_partition_context@ == context_filled(
        f.above_partition_context@,
        col,
        square_side(bsize),
        B_WIDTH_LOG2_LOOKUP[size as int],
    )
    &&& g.left_partition_context@ == context_filled(
        f.left_partition_context@,
        row % 8,
        square_side(bsize),
        B_HEIGHT_LOG2_LOOKUP[size as int],
    )
}

/// The square size of half the side.
pub open spec fn half_square(bsize: u8) -> u8 {
    if bsize == 12 {
        9
    } else if bsize == 9 {
        6
    } else {
        3
    }
}

/// A square: nothing outside the frame; otherwise its partition is read, its
/// parts are decoded and its contexts set.
#[verifier::opaque]
pub open spec fn square_walked<L: BlockLayer>(
    before: Walk<L>,
    row: int,
    col: int,
    bsize: u8,
    after: Walk<L>,
    res: Outcome,
) -> bool
    decreases square_side(bsize), 1int,
{
    let f = before.tiles.frame;
    if row >= f.mi_rows || col >= f.mi_cols {
        res is None && after == before
    } else {
        let p = partition_of(before.data, before.st, f, row, col, bsize);
        exists|read: Walk<L>, done: Walk<L>|
            {
                &&& #[trigger] partition_read(before, row, col, bsize, read)
                &&& parts_walked(read, row, col, bsize, p, done, res)
                &&& #[trigger] square_closed(done, row, col, bsize, p, after, res)
            }
    }
}

/// The contexts are set after the parts, unless these are squares that have set
/// them themselves.
pub open spec fn square_closed<L: BlockLayer>(
    done: Walk<L>,
    row: int,
    col: int,
    bsize: u8,
    p: int,
    after: Walk<L>,
    res: Outcome,
) -> bool {
    if res is None && (bsize == BLOCK_8X8 || p != PARTITION_SPLIT) {
        square_marked(done, row, col, bsize, SUBSIZE_LOOKUP[p][bsize as int], after)
    } else {
        after == done
    }
}

/// The parts of a square: one block, two blocks, or four squares.
#[verifier::opaque]
pub open spec fn parts_walked<L: BlockLayer>(
    before: Walk<L>,
    row: int,
    col: int,
    bsize: u8,
    p: int,
    after: Walk<L>,
    res: Outcome,
) -> bool
    decreases square_side(bsize), 0int,
{
    let f = before.tiles.frame;
    let size = SUBSIZE_LOOKUP[p][bsize as int];
    let half = square_side(bsize) / 2;
    if size < BLOCK_8X8 || p == PARTITION_NONE {
        block_walked(before, row, col, size, after, res)
    } else if p == PARTITION_HORZ {
        pair_walked(
            before,
            row,
            col,
            row + half,
            col,
            has_rows(f, row, bsize),
            size,
            after,
            res,
        )
    } else if p == PARTITION_VERT {
        pair_walked(
            before,
            row,
            col,
            row,
            col + half,
            has_cols(f, col, bsize),
            size,
            after,
            res,
        )
    } else {
        is_square(bsize) && bsize > BLOCK_8X8 && quarters_walked(
            before,
            row,
            col,
            half_square(bsize),
            after,
            res,
        )
    }
}

/// Four squares: upper left, upper right, lower left, lower right. `states` are
/// the states between them, up to the first failure.
#[verifier::opaque]
pub open spec fn quarters_walked<L: BlockLayer>(
    before: Walk<L>,
    row: int,
    col: int,
    size: u8,
    after: Walk<L>,
    res: Outcome,
) -> bool
    decreases square_side(size), 2int,
{
    exists|states: Seq<Walk<L>>|
        {
            &&& #[trigger] chain_of(states, 4, before, after, res)
            &&& forall|k: int|
                #![trigger states[k]]
                0 <= k < states.len() - 1 ==> square_walked(
                    states[k],
                    row + k / 2 * square_side(size),
                    col + k % 2 * square_side(size),
                    size,
                    states[k + 1],
                    step_outcome(states, k, res),
                )
        }
}

/// The states of up to `n` steps: all of them, or those up to the first that
/// fails.
pub open spec fn chain_of<L: BlockLayer>(
    states: Seq<Walk<L>>,
    n: int,
    before: Walk<L>,
    after: Walk<L>,
    res: Outcome,
) -> bool {
    &&& 1 <= states.len() <= n + 1
    &&& states[0] == before
    &&& states.last() == after
    &&& res is None ==> states.len() == n + 1
    &&& res is Some ==> states.len() >= 2
}

/// The outcome of step `k`: only the last can fail.
pub open spec fn step_outcome<L: BlockLayer>(
    states: Seq<Walk<L>>,
    k: int,
    res: Outcome,
) -> Outcome {
    if k == states.len() - 2 {
        res
    } else {
        None
    }
}

// ---------------------------------------------------------------------------
// Tiles.
// ---------------------------------------------------------------------------

/// The contexts along the left of a row of superblocks have been cleared.
pub open spec fn left_cleared<L: BlockLayer>(before: Walk<L>, after: Walk<L>) -> bool {
    let f = before.tiles.frame;
    let g = after.tiles.frame;
    let c = before.tiles.contexts;
    let e = after.tiles.contexts;
    &&& after.data == before.data
    &&& after.st == before.st
    &&& after.layer == before.layer
    &&& g.same_setup(&f)
    &&& g.same_tile(&f)
    &&& g.mi_grid == f.mi_grid
    &&& g.planes == f.planes
    &&& g.above_partition_context == f.above_partition_context
    &&& after.tiles.visited == before.tiles.visited
    &&& all_zero(g.left_partition_context@)
    &&& all_zero(e.left_seg_pred_context@)
    &&& forall|p: int| 0 <= p < 3 ==> all_zero((#[trigger] e.left_nonzero_context[p])@)
    &&& e.above_seg_pred_context == c.above_seg_pred_context
    &&& e.above_nonzero_context == c.above_nonzero_context
    &&& e.counts == c.counts
}

/// The number of superblocks from one unit to another.
pub open spec fn superblocks_between(start: int, end: int) -> int {
    if start < end {
        (end - start + 7) / 8
    } else {
        0
    }
}

/// A row of superblocks of the current tile, from left to right.
#[verifier::opaque]
pub open spec fn row_walked<L: BlockLayer>(
    before: Walk<L>,
    row: int,
    after: Walk<L>,
    res: Outcome,
) -> bool {
    let f = before.tiles.frame;
    exists|cleared: Walk<L>, states: Seq<Walk<L>>|
        {
            &&& #[trigger] left_cleared(before, cleared)
            &&& #[trigger] chain_of(
                states,
                superblocks_between(f.mi_col_start as int, f.mi_col_end as int),
                cleared,
                after,
                res,
            )
            &&& forall|k: int|
                #![trigger states[k]]
                0 <= k < states.len() - 1 ==> square_walked(
                    states[k],
                    row,
                    f.mi_col_start + 8 * k,
                    BLOCK_64X64,
                    states[k + 1],
                    step_outcome(states, k, res),
                )
        }
}

/// The current tile, row by row.
#[verifier::opaque]
pub open spec fn rows_walked<L: BlockLayer>(before: Walk<L>, after: Walk<L>, res: Outcome) -> bool {
    let f = before.tiles.frame;
    exists|states: Seq<Walk<L>>|
        {
            &&& #[trigger] chain_of(
                states,
                superblocks_between(f.mi_row_start as int, f.mi_row_end as int),
                before,
                after,
                res,
            )
            &&& forall|k: int|
                #![trigger states[k]]
                0 <= k < states.len() - 1 ==> row_walked(
                    states[k],
                    f.mi_row_start + 8 * k,
                    states[k + 1],
                    step_outcome(states, k, res),
                )
        }
}

/// Why the bool decoder of a tile cannot be started.
pub open spec fn tile_refusal(bytes: Seq<u8>) -> Option<TileError> {
    if bytes.len() == 0 {
        Some(TileError::BoolCoder(BoolCoderError::EmptyBuffer))
    } else if decoded_bool(loaded_state(bytes), 128) {
        Some(TileError::BoolCoder(BoolCoderError::InvalidMarker))
    } else {
        None
    }
}

/// The current tile, from its bytes. It is refused where the bool decoder cannot
/// be started, and where it ends far from the end of the bytes.
#[verifier::opaque]
pub open spec fn tile_walked<L: BlockLayer>(
    before: Stop<L>,
    bytes: Seq<u8>,
    after: Stop<L>,
    res: Outcome,
) -> bool {
    match tile_refusal(bytes) {
        Some(e) => res == Some(e) && after == before,
        None => exists|start: Walk<L>, end: Walk<L>, walked: Outcome|
            {
                &&& start.tiles == before.tiles
                &&& start.layer == before.layer
                &&& start.data == bytes
                &&& start.st == after_bool(bytes, loaded_state(bytes), 128)
                &&& #[trigger] rows_walked(start, end, walked)
                &&& after == stop_at(end.tiles, end.layer)
                &&& res == if walked is None && !read_bounds_ok(end.st, bytes.len() as int) {
                    Some(TileError::CorruptTile)
                } else {
                    walked
                }
            },
    }
}

/// The tile in the given row and column of tiles is the current one; nothing
/// else has changed.
pub open spec fn tile_entered(before: TileDecoder, row: int, col: int, after: TileDecoder) -> bool {
    let f = before.frame;
    let g = after.frame;
    &&& after.contexts == before.contexts
    &&& after.visited == before.visited
    &&& g == (TileFrame {
        mi_row_start: g.mi_row_start,
        mi_row_end: g.mi_row_end,
        mi_col_start: g.mi_col_start,
        mi_col_end: g.mi_col_end,
        ..f
    })
    &&& g.mi_row_start == tile_offset(row, f.mi_rows as int, f.tile_rows_log2 as nat)
    &&& g.mi_row_end == tile_offset(row + 1, f.mi_rows as int, f.tile_rows_log2 as nat)
    &&& g.mi_col_start == tile_offset(col, f.mi_cols as int, f.tile_cols_log2 as nat)
    &&& g.mi_col_end == tile_offset(col + 1, f.mi_cols as int, f.tile_cols_log2 as nat)
}

/// Tile number `k`, from its bytes.
#[verifier::opaque]
pub open spec fn tile_done<L: BlockLayer>(
    before: Stop<L>,
    k: int,
    bytes: Seq<u8>,
    after: Stop<L>,
    res: Outcome,
) -> bool {
    let cols = pow2(before.tiles.frame.tile_cols_log2 as nat) as int;
    exists|entered: TileDecoder|
        {
            &&& #[trigger] tile_entered(before.tiles, k / cols, k % cols, entered)
            &&& tile_walked(stop_at(entered, before.layer), bytes, after, res)
        }
}

/// The contexts along the top of the tiles have been cleared.
pub open spec fn above_cleared(before: TileDecoder, after: TileDecoder) -> bool {
    let f = before.frame;
    let g = after.frame;
    let c = before.contexts;
    let e = after.contexts;
    &&& g.same_setup(&f)
    &&& g.same_tile(&f)
    &&& g.mi_grid == f.mi_grid
    &&& g.planes == f.planes
    &&& g.left_partition_context == f.left_partition_context
    &&& after.visited == before.visited
    &&& g.above_partition_context@.len() == f.above_partition_context@.len()
    &&& all_zero(g.above_partition_context@)
    &&& all_zero(e.above_seg_pred_context@)
    &&& e.above_seg_pred_context@.len() == c.above_seg_pred_context@.len()
    &&& forall|p: int|
        0 <= p < 3 ==> all_zero((#[trigger] e.above_nonzero_context[p])@)
            && e.above_nonzero_context[p]@.len() == c.above_nonzero_context[p]@.len()
    &&& e.left_seg_pred_context == c.left_seg_pred_context
    &&& e.left_nonzero_context == c.left_nonzero_context
    &&& e.counts == c.counts
}

/// All tiles of a frame in turn. `states` are the states between them, up to the
/// first failure.
#[verifier::opaque]
pub open spec fn tiles_walked<L: BlockLayer>(
    before: Stop<L>,
    tiles: Seq<Seq<u8>>,
    after: Stop<L>,
    res: Outcome,
) -> bool {
    exists|states: Seq<Stop<L>>|
        {
            &&& 1 <= states.len() <= tiles.len() + 1
            &&& #[trigger] above_cleared(before.tiles, states[0].tiles)
            &&& states[0].layer == before.layer
            &&& states.last() == after
            &&& res is None ==> states.len() == tiles.len() + 1
            &&& res is Some ==> states.len() >= 2
            &&& forall|k: int|
                #![trigger states[k]]
                0 <= k < states.len() - 1 ==> tile_done(
                    states[k],
                    k,
                    tiles[k],
                    states[k + 1],
                    if k == states.len() - 2 {
                        res
                    } else {
                        None
                    },
                )
        }
}

} // verus!
