//! The tile decoder: walks the tiles, superblocks, partitions and blocks of a
//! frame.
//!
//! What a block holds, its mode info and its residual, is read by a
//! [`BlockLayer`]. The tile decoder decides where the blocks are, hands each to
//! the layer, checks what comes back and stores it.

use std::sync::Arc;
use vstd::arithmetic::div_mod::lemma_fundamental_div_mod_converse;
use vstd::arithmetic::power2::{lemma2_to64, lemma_pow2_pos, pow2};
use vstd::prelude::*;
use crate::bool_coder::{BoolDecoder, BoolState};
use crate::common::{power_of_two, ss_size_defined, INTRA_FRAME};
use crate::compressed_header::{CompressedHeader, CompressedHeaderProbs};
use crate::counts::{counts_zero, Counts};
use crate::dpb::RefFrameData;
use crate::framebuffer::{row_major, Plane};
use crate::header::{
    compute_image_size, units8, ColorConfig, ImageSize, LoopFilterParams, NewFrameHeader,
    QuantizationParams, SegmentationParams,
};
use crate::loop_filter::{
    frame_ok, loop_filter_frame, plane_filtered, plane_ok, segment_data_ok, FilterFrame,
};
use crate::prob_tables::{
    BLOCK_64X64, BLOCK_8X8, BLOCK_INVALID, B_HEIGHT_LOG2_LOOKUP, B_WIDTH_LOG2_LOOKUP,
    KF_PARTITION_PROBS, LAST_FRAME, MI_WIDTH_LOG2_LOOKUP, NUM_8X8_BLOCKS_HIGH_LOOKUP,
    NUM_8X8_BLOCKS_WIDE_LOOKUP, PARTITION_HORZ, PARTITION_NONE, PARTITION_SPLIT, PARTITION_VERT,
    SS_SIZE_LOOKUP, SUBSIZE_LOOKUP,
};
use crate::tile::partition::{
    after_partition, check_tile_read_bounds, decode_partition_value, find_bit, get_tile_offset,
    lemma_tiles_cover, partition_at, partition_context, split_tiles, tile_offset, tiles_of,
    TileError,
};
use crate::tile::walk::{
    above_cleared, block_answered, block_asked, block_kept, block_pos, block_rebuilt, block_units,
    block_walked, chain_of, half_square, left_cleared, outcome, pair_walked, partition_read,
    parts_walked, quarters_walked, row_walked, rows_walked, square_closed, square_walked,
    step_outcome, stop_at, superblocks_between, tile_done, tile_entered, tile_walked, tiles_walked,
    walk_at, Stop, Walk,
};
use crate::tile::{default_mi_info, MiGrid, MiInfo};

verus! {

/// Where a block is.
#[derive(Debug, Clone, Copy)]
pub struct BlockPos {
    /// First unit of the block.
    pub row: u32,
    pub col: u32,
    pub size: u8,
    /// There is a block above in the frame.
    pub avail_above: bool,
    /// There is a block to the left in the tile.
    pub avail_left: bool,
}

/// One reconstructed sample.
#[derive(Debug, Clone, Copy)]
pub struct SampleWrite {
    pub plane: usize,
    pub x: usize,
    pub y: usize,
    pub value: u16,
}

/// What reconstructing a block gives.
#[derive(Debug)]
pub struct Residual {
    /// The number of coefficients that were read.
    pub eob_total: u32,
    /// The block's samples. Those outside the planes are not stored.
    pub samples: Vec<SampleWrite>,
}

/// State that belongs to the blocks of a frame: contexts of segment prediction
/// and of coefficients, and the symbol counters.
pub struct BlockContexts {
    pub above_seg_pred_context: Vec<u8>,
    pub left_seg_pred_context: [u8; 8],
    /// Per plane, in units of 4 samples.
    pub above_nonzero_context: [Vec<u8>; 3],
    pub left_nonzero_context: [[u8; 16]; 3],
    pub counts: Counts,
}

/// Reads what a block holds.
///
/// Each method comes with a relation between what goes into a call and what
/// comes out of it. An implementation says by it what its method does; the walk
/// over the blocks is stated over these relations. A relation that it leaves out
/// holds of every call, so nothing is promised of that method.
pub trait BlockLayer: Sized {
    /// What reading the mode info of a block of an intra frame does.
    open spec fn intra_info_says(
        before: Self,
        frame: TileFrame,
        contexts: BlockContexts,
        data: Seq<u8>,
        st: BoolState,
        block: BlockPos,
        after: Self,
        contexts_after: BlockContexts,
        st_after: BoolState,
        reply: Result<MiInfo, TileError>,
    ) -> bool {
        true
    }

    /// What reading the mode info of a block of an inter frame does.
    open spec fn inter_info_says(
        before: Self,
        frame: TileFrame,
        contexts: BlockContexts,
        data: Seq<u8>,
        st: BoolState,
        block: BlockPos,
        after: Self,
        contexts_after: BlockContexts,
        st_after: BoolState,
        reply: Result<MiInfo, TileError>,
    ) -> bool {
        true
    }

    /// What predicting and reconstructing a block does.
    open spec fn residual_says(
        before: Self,
        frame: TileFrame,
        contexts: BlockContexts,
        data: Seq<u8>,
        st: BoolState,
        block: BlockPos,
        info: MiInfo,
        is_inter: bool,
        after: Self,
        contexts_after: BlockContexts,
        st_after: BoolState,
        residual: Residual,
    ) -> bool {
        true
    }

    /// Reads the mode info of a block of an intra frame.
    fn intra_frame_mode_info(
        &mut self,
        frame: &TileFrame,
        contexts: &mut BlockContexts,
        r: &mut BoolDecoder,
        block: BlockPos,
    ) -> (reply: Result<MiInfo, TileError>)
        ensures
            final(r).bytes() == old(r).bytes(),
            Self::intra_info_says(
                *old(self),
                *frame,
                *old(contexts),
                old(r).bytes(),
                old(r).state(),
                block,
                *final(self),
                *final(contexts),
                final(r).state(),
                reply,
            ),
    ;

    /// Reads the mode info of a block of an inter frame.
    fn inter_frame_mode_info(
        &mut self,
        frame: &TileFrame,
        contexts: &mut BlockContexts,
        r: &mut BoolDecoder,
        block: BlockPos,
    ) -> (reply: Result<MiInfo, TileError>)
        ensures
            final(r).bytes() == old(r).bytes(),
            Self::inter_info_says(
                *old(self),
                *frame,
                *old(contexts),
                old(r).bytes(),
                old(r).state(),
                block,
                *final(self),
                *final(contexts),
                final(r).state(),
                reply,
            ),
    ;

    /// Predicts a block, reads its coefficients and reconstructs it.
    fn residual(
        &mut self,
        frame: &TileFrame,
        contexts: &mut BlockContexts,
        r: &mut BoolDecoder,
        block: BlockPos,
        info: &MiInfo,
        is_inter: bool,
    ) -> (residual: Residual)
        ensures
            final(r).bytes() == old(r).bytes(),
            Self::residual_says(
                *old(self),
                *frame,
                *old(contexts),
                old(r).bytes(),
                old(r).state(),
                block,
                *info,
                is_inter,
                *final(self),
                *final(contexts),
                final(r).state(),
                residual,
            ),
    ;
}

/// A frame that is being decoded.
pub struct TileFrame {
    pub tx_mode: u8,
    pub probs: Arc<CompressedHeaderProbs>,
    pub segmentation: SegmentationParams,
    pub quantization: QuantizationParams,
    /// Size of the frame in units.
    pub mi_cols: u32,
    pub mi_rows: u32,
    pub tile_cols_log2: u32,
    pub tile_rows_log2: u32,
    pub mi_grid: MiGrid,
    /// How far the blocks above are divided, for every column.
    pub above_partition_context: Vec<u8>,
    /// How far the blocks to the left are divided, for the rows of a superblock.
    pub left_partition_context: [u8; 8],
    /// Segment ids of the frame before, row by row.
    pub prev_segment_ids: Arc<Vec<u8>>,
    /// The tile that is being decoded.
    pub mi_col_start: u32,
    pub mi_col_end: u32,
    pub mi_row_start: u32,
    pub mi_row_end: u32,
    pub bit_depth: u8,
    pub subsampling_x: u32,
    pub subsampling_y: u32,
    pub planes: [Plane; 3],
    pub frame_is_intra: bool,
    pub ref_frame_sign_bias: [bool; 4],
    pub allow_high_precision_mv: bool,
    pub interpolation_filter: u8,
    pub reference_mode: u8,
    pub comp_fixed_ref: u8,
    pub comp_var_ref: [u8; 2],
    /// Motion vectors of the frame before may be used.
    pub use_prev_frame_mvs: bool,
    /// The mode info of the frame before.
    pub prev_mi_grid: Option<Arc<MiGrid>>,
    pub frame_width: u32,
    pub frame_height: u32,
    /// The last, golden and alternate reference frames.
    pub resolved_refs: [Option<Arc<RefFrameData>>; 3],
}

/// A tile decoder.
pub struct TileDecoder {
    pub frame: TileFrame,
    pub contexts: BlockContexts,
    /// The units whose mode info has been stored.
    pub visited: Ghost<Set<(int, int)>>,
}

// ---------------------------------------------------------------------------
// Invariants.
// ---------------------------------------------------------------------------

/// The factor of a plane's subsampling.
pub open spec fn plane_factor(plane: int, sub: u32) -> int {
    if plane == 0 || sub == 0 {
        1
    } else {
        2
    }
}

/// The mode info is such as a frame with the given subsampling can have.
pub open spec fn info_usable(info: MiInfo, ssx: u32, ssy: u32) -> bool {
    &&& info.tx_size <= 3
    &&& info.mi_size < 13
    &&& info.segment_id < 8
    &&& info.ref_frame[0] < 4
    &&& ss_size_defined(info.mi_size, ssx as int, ssy as int)
}

impl TileFrame {
    /// Size of the frame in superblocks.
    pub open spec fn sb_cols(&self) -> int {
        units8(self.mi_cols as int)
    }

    pub open spec fn sb_rows(&self) -> int {
        units8(self.mi_rows as int)
    }

    /// A plane covers the frame in whole superblocks.
    pub open spec fn plane_fits(&self, p: int, plane: Plane) -> bool {
        &&& plane.wf()
        &&& plane.x0 == 0
        &&& plane.width == 64 * self.sb_cols() / plane_factor(p, self.subsampling_x)
        &&& plane.height == 64 * self.sb_rows() / plane_factor(p, self.subsampling_y)
    }

    /// The grid, the planes and the contexts cover the frame in whole
    /// superblocks, and every entry of the grid is usable.
    pub open spec fn wf(&self) -> bool {
        &&& self.mi_cols <= 0x2000
        &&& self.mi_rows <= 0x2000
        &&& self.subsampling_x <= 1
        &&& self.subsampling_y <= 1
        &&& 8 <= self.bit_depth <= 16
        &&& self.mi_grid.wf()
        &&& self.mi_grid.col0 == 0
        &&& self.mi_grid.cols == 8 * self.sb_cols()
        &&& self.mi_grid.rows == 8 * self.sb_rows()
        &&& self.above_partition_context.len() == 8 * self.sb_cols()
        &&& forall|p: int| 0 <= p < 3 ==> self.plane_fits(p, #[trigger] self.planes[p])
        &&& forall|r: int, c: int|
            0 <= r < self.mi_grid.rows && 0 <= c < self.mi_grid.cols ==> info_usable(
                #[trigger] self.mi_grid.at(r, c),
                self.subsampling_x,
                self.subsampling_y,
            )
    }

    /// The same frame: all that decoding does not change is the same.
    pub open spec fn same_setup(&self, o: &TileFrame) -> bool {
        &&& self.tx_mode == o.tx_mode
        &&& self.probs == o.probs
        &&& self.segmentation == o.segmentation
        &&& self.quantization == o.quantization
        &&& self.mi_cols == o.mi_cols
        &&& self.mi_rows == o.mi_rows
        &&& self.tile_cols_log2 == o.tile_cols_log2
        &&& self.tile_rows_log2 == o.tile_rows_log2
        &&& self.prev_segment_ids == o.prev_segment_ids
        &&& self.bit_depth == o.bit_depth
        &&& self.subsampling_x == o.subsampling_x
        &&& self.subsampling_y == o.subsampling_y
        &&& self.frame_is_intra == o.frame_is_intra
        &&& self.ref_frame_sign_bias == o.ref_frame_sign_bias
        &&& self.allow_high_precision_mv == o.allow_high_precision_mv
        &&& self.interpolation_filter == o.interpolation_filter
        &&& self.reference_mode == o.reference_mode
        &&& self.comp_fixed_ref == o.comp_fixed_ref
        &&& self.comp_var_ref == o.comp_var_ref
        &&& self.use_prev_frame_mvs == o.use_prev_frame_mvs
        &&& self.prev_mi_grid == o.prev_mi_grid
        &&& self.frame_width == o.frame_width
        &&& self.frame_height == o.frame_height
        &&& self.resolved_refs == o.resolved_refs
    }

    /// The same tile is being decoded.
    pub open spec fn same_tile(&self, o: &TileFrame) -> bool {
        &&& self.mi_col_start == o.mi_col_start
        &&& self.mi_col_end == o.mi_col_end
        &&& self.mi_row_start == o.mi_row_start
        &&& self.mi_row_end == o.mi_row_end
    }

    /// The partition contexts are the same.
    pub open spec fn same_partition_contexts(&self, o: &TileFrame) -> bool {
        &&& self.above_partition_context@ == o.above_partition_context@
        &&& self.left_partition_context@ == o.left_partition_context@
    }
}

/// Every unit of the rectangle that lies in the frame has been visited.
pub open spec fn rect_visited(
    v: Set<(int, int)>,
    f: TileFrame,
    row: int,
    col: int,
    high: int,
    wide: int,
) -> bool {
    forall|r: int, c: int|
        row <= r < row + high && col <= c < col + wide && r < f.mi_rows && c < f.mi_cols
            ==> #[trigger] v.contains((r, c))
}

/// The whole frame has been visited.
pub open spec fn frame_visited(v: Set<(int, int)>, f: TileFrame) -> bool {
    forall|r: int, c: int|
        0 <= r < f.mi_rows && 0 <= c < f.mi_cols ==> #[trigger] v.contains((r, c))
}

/// Height of a block size in units.
pub open spec fn units_high(size: u8) -> int {
    NUM_8X8_BLOCKS_HIGH_LOOKUP[size as int] as int
}

/// Width of a block size in units.
pub open spec fn units_wide(size: u8) -> int {
    NUM_8X8_BLOCKS_WIDE_LOOKUP[size as int] as int
}

// ---------------------------------------------------------------------------
// Checking and storing a block.
// ---------------------------------------------------------------------------

/// Why a reference cannot be used: there is no frame, or it is too large.
pub open spec fn ref_refusal(f: TileFrame, ref_frame: u8) -> Option<TileError> {
    if ref_frame == INTRA_FRAME {
        None
    } else {
        match f.resolved_refs[ref_frame - LAST_FRAME] {
            None => Some(TileError::MissingReference),
            Some(data) => if data.width > 2 * f.frame_width || data.height > 2 * f.frame_height {
                Some(TileError::RefFrameSizeOutOfRange)
            } else {
                None
            },
        }
    }
}

/// The mode info is such as a block of the size can have.
pub open spec fn info_plausible(subsize: u8, info: MiInfo) -> bool {
    &&& info.mi_size == subsize
    &&& info.tx_size <= 3
    &&& info.segment_id < 8
    &&& info.ref_frame[0] < 4
    &&& info.ref_frame[1] < 4
}

/// Why a block is refused, if it is.
pub open spec fn block_refusal(f: TileFrame, subsize: u8, info: MiInfo) -> Option<TileError> {
    let size = if info.mi_size < BLOCK_8X8 {
        BLOCK_8X8
    } else {
        info.mi_size
    };
    if !info_plausible(subsize, info) || SS_SIZE_LOOKUP[size as int][f.subsampling_x as int][f.subsampling_y as int]
        == BLOCK_INVALID {
        Some(TileError::InvalidPartition)
    } else if info.ref_frame[0] == INTRA_FRAME {
        None
    } else if ref_refusal(f, info.ref_frame[0]) is Some {
        ref_refusal(f, info.ref_frame[0])
    } else {
        ref_refusal(f, info.ref_frame[1])
    }
}

/// A plane's samples after the first `n` writes. Writes to other planes or
/// outside the plane do not count.
pub open spec fn written(
    s: Seq<u16>,
    width: int,
    height: int,
    plane: int,
    writes: Seq<SampleWrite>,
    n: nat,
) -> Seq<u16>
    decreases n,
{
    if n == 0 {
        s
    } else {
        let before = written(s, width, height, plane, writes, (n - 1) as nat);
        let w = writes[n - 1];
        if w.plane == plane && w.x < width && w.y < height {
            before.update(row_major(width, w.x as int, w.y as int), w.value)
        } else {
            before
        }
    }
}

/// The mode info to store: an inter block of at least 8x8 without coefficients
/// counts as skipped.
pub open spec fn stored_info(info: MiInfo, subsize: u8, eob_total: u32) -> MiInfo {
    MiInfo {
        skip: info.skip || (info.ref_frame[0] != INTRA_FRAME && subsize >= BLOCK_8X8 && eob_total
            == 0),
        ..info
    }
}

/// What storing a block changes: the planes by the block's samples, and the
/// grid in the block's units.
pub open spec fn block_stored(
    before: TileFrame,
    after: TileFrame,
    row: int,
    col: int,
    subsize: u8,
    info: MiInfo,
    residual: Residual,
) -> bool {
    &&& forall|p: int|
        0 <= p < 3 ==> (#[trigger] after.planes[p]).samples() == written(
            before.planes[p].samples(),
            before.planes[p].width as int,
            before.planes[p].height as int,
            p,
            residual.samples@,
            residual.samples@.len(),
        )
    &&& forall|r: int, c: int|
        before.mi_grid.contains(r, c) ==> #[trigger] after.mi_grid.at(r, c) == if row <= r < row
            + units_high(subsize) && col <= c < col + units_wide(subsize) {
            stored_info(info, subsize, residual.eob_total)
        } else {
            before.mi_grid.at(r, c)
        }
}

/// Decides whether a reference can be used.
fn check_reference(f: &TileFrame, ref_frame: u8) -> (res: Result<(), TileError>)
    requires
        ref_frame < 4,
    ensures
        match res {
            Ok(_) => ref_refusal(*f, ref_frame) is None,
            Err(e) => ref_refusal(*f, ref_frame) == Some(e),
        },
{
    if ref_frame == INTRA_FRAME {
        return Ok(());
    }
    match &f.resolved_refs[(ref_frame - LAST_FRAME) as usize] {
        None => Err(TileError::MissingReference),
        Some(data) => {
            if data.width as u64 > 2 * f.frame_width as u64 || data.height as u64 > 2
                * f.frame_height as u64 {
                Err(TileError::RefFrameSizeOutOfRange)
            } else {
                Ok(())
            }
        },
    }
}

/// Decides whether a block with the given mode info is accepted.
pub fn check_block(f: &TileFrame, subsize: u8, info: &MiInfo) -> (res: Result<(), TileError>)
    requires
        f.subsampling_x <= 1,
        f.subsampling_y <= 1,
        subsize < 13,
    ensures
        match res {
            Ok(_) => block_refusal(*f, subsize, *info) is None && info_usable(
                *info,
                f.subsampling_x,
                f.subsampling_y,
            ),
            Err(e) => block_refusal(*f, subsize, *info) == Some(e),
        },
{
    if info.mi_size != subsize || info.tx_size > 3 || info.segment_id >= 8 || info.ref_frame[0] >= 4
        || info.ref_frame[1] >= 4 {
        return Err(TileError::InvalidPartition);
    }
    let size: u8 = if info.mi_size < BLOCK_8X8 { BLOCK_8X8 } else { info.mi_size };
    if SS_SIZE_LOOKUP[size as usize][f.subsampling_x as usize][f.subsampling_y as usize]
        == BLOCK_INVALID {
        return Err(TileError::InvalidPartition);
    }
    if info.ref_frame[0] != INTRA_FRAME {
        match check_reference(f, info.ref_frame[0]) {
            Ok(_) => {},
            Err(e) => {
                return Err(e);
            },
        }
        match check_reference(f, info.ref_frame[1]) {
            Ok(_) => {},
            Err(e) => {
                return Err(e);
            },
        }
    }
    Ok(())
}

/// Stores samples in a plane.
fn store_samples(plane: &mut Plane, index: usize, writes: &Vec<SampleWrite>)
    requires
        old(plane).wf(),
        old(plane).x0 == 0,
    ensures
        final(plane).wf(),
        final(plane).same_shape(old(plane)),
        final(plane).samples() == written(
            old(plane).samples(),
            old(plane).width as int,
            old(plane).height as int,
            index as int,
            writes@,
            writes@.len(),
        ),
{
    let ghost before = *plane;
    for i in 0..writes.len()
        invariant
            plane.wf(),
            before.x0 == 0,
            plane.same_shape(&before),
            plane.samples() == written(
                before.samples(),
                before.width as int,
                before.height as int,
                index as int,
                writes@,
                i as nat,
            ),
    {
        let w: SampleWrite = writes[i];
        if w.plane == index && w.x < plane.width && w.y < plane.height {
            plane.set(w.x, w.y, w.value);
        }
    }
}

/// Stores a block that has been accepted.
pub fn store_block(
    f: &mut TileFrame,
    row: u32,
    col: u32,
    subsize: u8,
    info: MiInfo,
    residual: &Residual,
)
    requires
        old(f).wf(),
        subsize < 13,
        row + units_high(subsize) <= old(f).mi_grid.rows,
        col + units_wide(subsize) <= old(f).mi_grid.cols,
        info_usable(info, old(f).subsampling_x, old(f).subsampling_y),
    ensures
        final(f).wf(),
        final(f).same_setup(old(f)),
        final(f).same_tile(old(f)),
        final(f).same_partition_contexts(old(f)),
        block_stored(*old(f), *final(f), row as int, col as int, subsize, info, *residual),
{
    let ghost before = *f;
    store_samples(&mut f.planes[0], 0, &residual.samples);
    store_samples(&mut f.planes[1], 1, &residual.samples);
    store_samples(&mut f.planes[2], 2, &residual.samples);
    let is_inter: bool = info.ref_frame[0] != INTRA_FRAME;
    let skip: bool = info.skip || (is_inter && subsize >= BLOCK_8X8 && residual.eob_total == 0);
    let stored: MiInfo = MiInfo {
        skip,
        tx_size: info.tx_size,
        mi_size: info.mi_size,
        y_mode: info.y_mode,
        uv_mode: info.uv_mode,
        sub_modes: info.sub_modes,
        segment_id: info.segment_id,
        ref_frame: info.ref_frame,
        mv: info.mv,
        sub_mvs: info.sub_mvs,
        interp_filter: info.interp_filter,
    };
    let bw: u32 = NUM_8X8_BLOCKS_WIDE_LOOKUP[subsize as usize] as u32;
    let bh: u32 = NUM_8X8_BLOCKS_HIGH_LOOKUP[subsize as usize] as u32;
    store_info(&mut f.mi_grid, row, col, bh, bw, stored);
    proof {
        assert forall|r: int, c: int|
            0 <= r < f.mi_grid.rows && 0 <= c < f.mi_grid.cols implies info_usable(
            #[trigger] f.mi_grid.at(r, c),
            f.subsampling_x,
            f.subsampling_y,
        ) by {
            assert(before.mi_grid.contains(r, c));
            assert(
                info_usable(before.mi_grid.at(r, c), before.subsampling_x, before.subsampling_y)
            );
        }
    }
}

/// Stores the mode info of a block in its units.
fn store_info(grid: &mut MiGrid, row: u32, col: u32, bh: u32, bw: u32, info: MiInfo)
    requires
        old(grid).wf(),
        old(grid).col0 == 0,
        old(grid).rows <= 0x1_0000,
        old(grid).cols <= 0x1_0000,
        row + bh <= old(grid).rows,
        col + bw <= old(grid).cols,
    ensures
        final(grid).wf(),
        final(grid).cols == old(grid).cols,
        final(grid).rows == old(grid).rows,
        final(grid).col0 == old(grid).col0,
        forall|r: int, c: int|
            old(grid).contains(r, c) ==> #[trigger] final(grid).at(r, c) == if row <= r < row + bh
                && col <= c < col + bw {
                info
            } else {
                old(grid).at(r, c)
            },
{
    let ghost before = *grid;
    for y in 0..bh
        invariant
            grid.wf(),
            grid.cols == before.cols,
            grid.rows == before.rows,
            grid.col0 == before.col0,
            before.col0 == 0,
            before.rows <= 0x1_0000,
            before.cols <= 0x1_0000,
            row + bh <= before.rows,
            col + bw <= before.cols,
            forall|r: int, c: int|
                before.contains(r, c) ==> #[trigger] grid.at(r, c) == if row <= r < row + y && col
                    <= c < col + bw {
                    info
                } else {
                    before.at(r, c)
                },
    {
        for x in 0..bw
            invariant
                grid.wf(),
                grid.cols == before.cols,
                grid.rows == before.rows,
                grid.col0 == before.col0,
                before.col0 == 0,
                before.rows <= 0x1_0000,
                before.cols <= 0x1_0000,
                y < bh,
                row + bh <= before.rows,
                col + bw <= before.cols,
                forall|r: int, c: int|
                    before.contains(r, c) ==> #[trigger] grid.at(r, c) == if (row <= r < row + y
                        && col <= c < col + bw) || (r == row + y && col <= c < col + x) {
                        info
                    } else {
                        before.at(r, c)
                    },
        {
            grid.set(row + y, col + x, info);
        }
    }
}

// ---------------------------------------------------------------------------
// Starting a frame.
// ---------------------------------------------------------------------------

/// All entries are 0.
pub open spec fn all_zero(v: Seq<u8>) -> bool {
    forall|i: int| 0 <= i < v.len() ==> #[trigger] v[i] == 0
}

/// A frame whose buffers can be allocated.
pub open spec fn frame_fits(width: u32, height: u32) -> bool {
    &&& width <= 0x1_0000
    &&& height <= 0x1_0000
    &&& (64 * units8(units8(width as int))) * (64 * units8(units8(height as int))) <= usize::MAX
}

/// A frame that starts from its headers.
pub open spec fn frame_started(
    f: TileFrame,
    header: NewFrameHeader,
    color_config: ColorConfig,
    compressed: CompressedHeader,
    use_prev_frame_mvs: bool,
    prev_mi_grid: Option<Arc<MiGrid>>,
    resolved_refs: [Option<Arc<RefFrameData>>; 3],
    prev_segment_ids: Arc<Vec<u8>>,
) -> bool {
    &&& f.wf()
    &&& f.tx_mode == compressed.tx_mode
    &&& f.probs == compressed.probs
    &&& f.segmentation == header.segmentation
    &&& f.quantization == header.quantization
    &&& f.mi_cols == units8(header.width as int)
    &&& f.mi_rows == units8(header.height as int)
    &&& f.tile_cols_log2 == header.tile_cols_log2
    &&& f.tile_rows_log2 == header.tile_rows_log2
    &&& forall|i: int|
        0 <= i < f.mi_grid.data.len() ==> default_mi_info(#[trigger] f.mi_grid.data[i])
    &&& all_zero(f.above_partition_context@)
    &&& all_zero(f.left_partition_context@)
    &&& f.prev_segment_ids == prev_segment_ids
    &&& f.mi_col_start == 0
    &&& f.mi_col_end == f.mi_cols
    &&& f.mi_row_start == 0
    &&& f.mi_row_end == f.mi_rows
    &&& f.bit_depth == color_config.bit_depth
    &&& f.subsampling_x == color_config.subsampling_x
    &&& f.subsampling_y == color_config.subsampling_y
    &&& forall|p: int, i: int|
        0 <= p < 3 && 0 <= i < f.planes[p].samples().len() ==> #[trigger] f.planes[p].samples()[i]
            == 0
    &&& f.frame_is_intra == header.frame_is_intra
    &&& f.ref_frame_sign_bias == header.ref_frame_sign_bias
    &&& f.allow_high_precision_mv == header.allow_high_precision_mv
    &&& f.interpolation_filter == header.interpolation_filter
    &&& f.reference_mode == compressed.reference_mode
    &&& f.comp_fixed_ref == compressed.comp_fixed_ref
    &&& f.comp_var_ref == compressed.comp_var_ref
    &&& f.use_prev_frame_mvs == use_prev_frame_mvs
    &&& f.prev_mi_grid == prev_mi_grid
    &&& f.frame_width == header.width
    &&& f.frame_height == header.height
    &&& f.resolved_refs == resolved_refs
}

/// Contexts of a frame of `cols` columns of units, before its first block.
pub open spec fn contexts_started(c: BlockContexts, cols: int) -> bool {
    &&& c.above_seg_pred_context@.len() == cols
    &&& all_zero(c.above_seg_pred_context@)
    &&& all_zero(c.left_seg_pred_context@)
    &&& forall|p: int|
        0 <= p < 3 ==> (#[trigger] c.above_nonzero_context[p])@.len() == 2 * cols && all_zero(
            c.above_nonzero_context[p]@,
        )
    &&& forall|p: int| 0 <= p < 3 ==> all_zero((#[trigger] c.left_nonzero_context[p])@)
    &&& counts_zero(c.counts)
}

/// The sample format is one that planes can hold.
pub open spec fn format_ok(c: ColorConfig) -> bool {
    8 <= c.bit_depth <= 16 && c.subsampling_x <= 1 && c.subsampling_y <= 1
}

/// Sets every entry to 0.
fn zero_all(v: &mut Vec<u8>)
    ensures
        final(v)@.len() == old(v)@.len(),
        all_zero(final(v)@),
{
    let n: usize = v.len();
    for i in 0..n
        invariant
            v@.len() == n,
            forall|k: int| 0 <= k < i ==> #[trigger] v@[k] == 0,
    {
        v[i] = 0;
    }
}

impl TileDecoder {
    /// Starts a frame without a frame before it: all segment ids were 0.
    pub fn new(
        header: &NewFrameHeader,
        color_config: ColorConfig,
        compressed: &CompressedHeader,
    ) -> (t:
        Self)
        requires
            frame_fits(header.width, header.height),
            format_ok(color_config),
        ensures
            exists|ids: Arc<Vec<u8>>|
                {
                    &&& all_zero(ids@)
                    &&& ids@.len() == units8(header.width as int) * units8(header.height as int)
                    &&& #[trigger] frame_started(
                        t.frame,
                        *header,
                        color_config,
                        *compressed,
                        false,
                        None,
                        t.frame.resolved_refs,
                        ids,
                    )
                },
            forall|i: int| 0 <= i < 3 ==> (#[trigger] t.frame.resolved_refs[i]) is None,
            contexts_started(t.contexts, 8 * t.frame.sb_cols()),
            t.visited@ == Set::<(int, int)>::empty(),
    {
        let image_size: ImageSize = compute_image_size(header.width, header.height);
        proof {
            assert(image_size.mi_cols * image_size.mi_rows <= 0x2000 * 0x2000) by (nonlinear_arith)
                requires
                    0 <= image_size.mi_cols <= 0x2000,
                    0 <= image_size.mi_rows <= 0x2000,
            ;
        }
        let ids: Vec<u8> = vec![0u8; (image_size.mi_cols * image_size.mi_rows) as usize];
        let zero_prev_segment_ids: Arc<Vec<u8>> = Arc::new(ids);
        let refs: [Option<Arc<RefFrameData>>; 3] = [None, None, None];
        Self::new_with_prev(
            header,
            color_config,
            compressed,
            false,
            None,
            refs,
            zero_prev_segment_ids,
        )
    }

    /// Starts a frame. `color_config` is the frame's sample format;
    /// `prev_mi_grid` and `prev_segment_ids` are those of the frame before, and
    /// `resolved_refs` the frames that it refers to.
    pub fn new_with_prev(
        header: &NewFrameHeader,
        color_config: ColorConfig,
        compressed: &CompressedHeader,
        use_prev_frame_mvs: bool,
        prev_mi_grid: Option<Arc<MiGrid>>,
        resolved_refs: [Option<Arc<RefFrameData>>; 3],
        prev_segment_ids: Arc<Vec<u8>>,
    ) -> (t: Self)
        requires
            frame_fits(header.width, header.height),
            format_ok(color_config),
        ensures
            frame_started(
                t.frame,
                *header,
                color_config,
                *compressed,
                use_prev_frame_mvs,
                prev_mi_grid,
                resolved_refs,
                prev_segment_ids,
            ),
            contexts_started(t.contexts, 8 * t.frame.sb_cols()),
            t.visited@ == Set::<(int, int)>::empty(),
    {
        let image_size: ImageSize = compute_image_size(header.width, header.height);
        let ghost sbc = image_size.sb64_cols as int;
        let ghost sbr = image_size.sb64_rows as int;
        let grid_cols: usize = (image_size.sb64_cols * 8) as usize;
        let grid_rows: usize = (image_size.sb64_rows * 8) as usize;
        let subsampling_x: u32 = color_config.subsampling_x as u32;
        let subsampling_y: u32 = color_config.subsampling_y as u32;
        let y_w: usize = (image_size.sb64_cols * 64) as usize;
        let y_h: usize = (image_size.sb64_rows * 64) as usize;
        let uv_w: usize = if subsampling_x == 0 { y_w } else { y_w / 2 };
        let uv_h: usize = if subsampling_y == 0 { y_h } else { y_h / 2 };
        proof {
            assert(uv_w * uv_h <= y_w * y_h) by (nonlinear_arith)
                requires
                    0 <= uv_w <= y_w,
                    0 <= uv_h <= y_h,
            ;
            assert(grid_cols * grid_rows <= y_w * y_h) by (nonlinear_arith)
                requires
                    0 <= grid_cols <= y_w,
                    0 <= grid_rows <= y_h,
            ;
        }
        let plane_y: Plane = Plane::new(y_w, y_h);
        let plane_u: Plane = Plane::new(uv_w, uv_h);
        let plane_v: Plane = Plane::new(uv_w, uv_h);
        let above_nz_len: usize = grid_cols * 2;
        let nz_y: Vec<u8> = vec![0u8; above_nz_len];
        let nz_u: Vec<u8> = vec![0u8; above_nz_len];
        let nz_v: Vec<u8> = vec![0u8; above_nz_len];
        let mi_grid: MiGrid = MiGrid::new(grid_cols, grid_rows);
        proof {
            assert forall|r: int, c: int| 0 <= r < grid_rows && 0 <= c < grid_cols implies info_usable(
                #[trigger] mi_grid.at(r, c),
                subsampling_x,
                subsampling_y,
            ) by {
                crate::framebuffer::lemma_row_major(grid_cols as int, grid_rows as int, c, r);
                assert(default_mi_info(mi_grid.data[row_major(grid_cols as int, c, r)]));
            }
        }
        let probs: Arc<CompressedHeaderProbs> = compressed.probs.clone();
        let frame = TileFrame {
            tx_mode: compressed.tx_mode,
            probs,
            segmentation: header.segmentation,
            quantization: header.quantization,
            mi_cols: image_size.mi_cols,
            mi_rows: image_size.mi_rows,
            tile_cols_log2: header.tile_cols_log2,
            tile_rows_log2: header.tile_rows_log2,
            mi_grid,
            above_partition_context: vec![0u8; grid_cols],
            left_partition_context: [0u8; 8],
            prev_segment_ids,
            mi_col_start: 0,
            mi_col_end: image_size.mi_cols,
            mi_row_start: 0,
            mi_row_end: image_size.mi_rows,
            bit_depth: color_config.bit_depth,
            subsampling_x,
            subsampling_y,
            planes: [plane_y, plane_u, plane_v],
            frame_is_intra: header.frame_is_intra,
            ref_frame_sign_bias: header.ref_frame_sign_bias,
            allow_high_precision_mv: header.allow_high_precision_mv,
            interpolation_filter: header.interpolation_filter,
            reference_mode: compressed.reference_mode,
            comp_fixed_ref: compressed.comp_fixed_ref,
            comp_var_ref: compressed.comp_var_ref,
            use_prev_frame_mvs,
            prev_mi_grid,
            frame_width: header.width,
            frame_height: header.height,
            resolved_refs,
        };
        let contexts = BlockContexts {
            above_seg_pred_context: vec![0u8; grid_cols],
            left_seg_pred_context: [0u8; 8],
            above_nonzero_context: [nz_y, nz_u, nz_v],
            left_nonzero_context: [[0u8; 16]; 3],
            counts: Counts::new(),
        };
        TileDecoder { frame, contexts, visited: Ghost(Set::empty()) }
    }

    /// The symbol counters.
    pub fn counts(&self) -> (c: &Counts)
        ensures
            *c == self.contexts.counts,
    {
        &self.contexts.counts
    }

    /// The mode info of the frame.
    pub fn mi_grid(&self) -> (g: &MiGrid)
        ensures
            *g == self.frame.mi_grid,
    {
        &self.frame.mi_grid
    }

    /// Gives up the decoder for the mode info of the frame.
    pub fn into_mi_grid(self) -> (g: MiGrid)
        ensures
            g == self.frame.mi_grid,
    {
        self.frame.mi_grid
    }

    /// The planes of the frame, in whole superblocks.
    pub fn planes(&self) -> (p: &[Plane; 3])
        ensures
            *p == self.frame.planes,
    {
        &self.frame.planes
    }

    /// Applies the loop filter to the planes.
    pub fn apply_loop_filter(&mut self, lf: &LoopFilterParams)
        requires
            old(self).frame.wf(),
            lf.sharpness <= 8,
            segment_data_ok(*lf, old(self).frame.segmentation),
        ensures
            final(self).frame.wf(),
            final(self).frame.same_setup(&old(self).frame),
            final(self).frame.same_tile(&old(self).frame),
            final(self).frame.same_partition_contexts(&old(self).frame),
            final(self).frame.mi_grid == old(self).frame.mi_grid,
            final(self).contexts == old(self).contexts,
            final(self).visited == old(self).visited,
            forall|p: int|
                0 <= p < 3 ==> (#[trigger] final(self).frame.planes[p]).samples() == plane_filtered(
                    filter_frame(&old(self).frame, lf),
                    p,
                    old(self).frame.planes[p].width as int,
                    old(self).frame.planes[p].samples(),
                ),
    {
        proof {
            lemma_filter_frame_ok(&self.frame, lf);
        }
        loop_filter_frame(
            &mut self.frame.planes,
            &self.frame.mi_grid,
            self.frame.mi_cols,
            self.frame.mi_rows,
            self.frame.subsampling_x,
            self.frame.subsampling_y,
            lf,
            &self.frame.segmentation,
            self.frame.bit_depth,
        );
    }

    /// Clears the contexts that run along the top of the tiles.
    fn clear_above_context(&mut self)
        requires
            old(self).frame.wf(),
        ensures
            final(self).frame.wf(),
            final(self).frame.same_setup(&old(self).frame),
            final(self).frame.same_tile(&old(self).frame),
            final(self).frame.mi_grid == old(self).frame.mi_grid,
            final(self).frame.planes == old(self).frame.planes,
            final(self).frame.left_partition_context == old(self).frame.left_partition_context,
            final(self).visited == old(self).visited,
            all_zero(final(self).frame.above_partition_context@),
            all_zero(final(self).contexts.above_seg_pred_context@),
            final(self).contexts.above_seg_pred_context@.len() == old(self).contexts.above_seg_pred_context@.len(),
            forall|p: int|
                0 <= p < 3 ==> all_zero((#[trigger] final(self).contexts.above_nonzero_context[p])@)
                    && final(self).contexts.above_nonzero_context[p]@.len() == old(self).contexts.above_nonzero_context[p]@.len(),
            final(self).contexts.left_seg_pred_context == old(self).contexts.left_seg_pred_context,
            final(self).contexts.left_nonzero_context == old(self).contexts.left_nonzero_context,
            final(self).contexts.counts == old(self).contexts.counts,
    {
        zero_all(&mut self.frame.above_partition_context);
        zero_all(&mut self.contexts.above_seg_pred_context);
        zero_all(&mut self.contexts.above_nonzero_context[0]);
        zero_all(&mut self.contexts.above_nonzero_context[1]);
        zero_all(&mut self.contexts.above_nonzero_context[2]);
    }

    /// Clears the contexts that run along the left of a row of superblocks.
    fn clear_left_context(&mut self)
        requires
            old(self).frame.wf(),
        ensures
            final(self).frame.wf(),
            final(self).frame.same_setup(&old(self).frame),
            final(self).frame.same_tile(&old(self).frame),
            final(self).frame.mi_grid == old(self).frame.mi_grid,
            final(self).frame.planes == old(self).frame.planes,
            final(self).frame.above_partition_context == old(self).frame.above_partition_context,
            final(self).visited == old(self).visited,
            all_zero(final(self).frame.left_partition_context@),
            all_zero(final(self).contexts.left_seg_pred_context@),
            forall|p: int|
                0 <= p < 3 ==> all_zero((#[trigger] final(self).contexts.left_nonzero_context[p])@),
            final(self).contexts.above_seg_pred_context == old(self).contexts.above_seg_pred_context,
            final(self).contexts.above_nonzero_context == old(self).contexts.above_nonzero_context,
            final(self).contexts.counts == old(self).contexts.counts,
    {
        self.frame.left_partition_context = [0u8; 8];
        self.contexts.left_seg_pred_context = [0u8; 8];
        self.contexts.left_nonzero_context = [[0u8; 16]; 3];
    }
}

/// A frame as the loop filter sees it.
pub open spec fn filter_frame<'a>(f: &'a TileFrame, lf: &'a LoopFilterParams) -> FilterFrame<'a> {
    FilterFrame {
        mi_grid: &f.mi_grid,
        mi_cols: f.mi_cols,
        mi_rows: f.mi_rows,
        subsampling_x: f.subsampling_x,
        subsampling_y: f.subsampling_y,
        lf,
        seg: &f.segmentation,
        bit_depth: f.bit_depth,
    }
}

proof fn lemma_filter_frame_ok(f: &TileFrame, lf: &LoopFilterParams)
    requires
        f.wf(),
        lf.sharpness <= 8,
        segment_data_ok(*lf, f.segmentation),
    ensures
        frame_ok(filter_frame(f, lf)),
        forall|p: int| 0 <= p < 3 ==> plane_ok(filter_frame(f, lf), p, #[trigger] f.planes[p]),
{
    let ff = filter_frame(f, lf);
    assert forall|r: int, c: int|
        0 <= r < ff.mi_grid.rows && 0 <= c < ff.mi_grid.cols implies crate::loop_filter::info_ok(
        ff,
        #[trigger] ff.mi_grid.at(r, c),
    ) by {
        assert(info_usable(f.mi_grid.at(r, c), f.subsampling_x, f.subsampling_y));
    }
    assert forall|p: int| 0 <= p < 3 implies plane_ok(ff, p, #[trigger] f.planes[p]) by {
        assert(f.plane_fits(p, f.planes[p]));
    }
}

// ---------------------------------------------------------------------------
// Walking the blocks.
// ---------------------------------------------------------------------------

/// The square block sizes, and their sides in units.
pub open spec fn square_side(bsize: u8) -> int {
    if bsize == 3 {
        1
    } else if bsize == 6 {
        2
    } else if bsize == 9 {
        4
    } else {
        8
    }
}

pub open spec fn is_square(bsize: u8) -> bool {
    bsize == 3 || bsize == 6 || bsize == 9 || bsize == 12
}

/// A square at the place where a partition can be.
pub open spec fn square_in(f: TileFrame, row: int, col: int, bsize: u8) -> bool {
    &&& is_square(bsize)
    &&& row % square_side(bsize) == 0
    &&& col % square_side(bsize) == 0
    &&& 0 <= row
    &&& 0 <= col
}

/// The probabilities of a partition: fixed ones in an intra frame.
pub open spec fn partition_probs_of(f: TileFrame, ctx: int) -> Seq<u8> {
    if f.frame_is_intra {
        KF_PARTITION_PROBS[ctx]@
    } else {
        f.probs.partition_probs[ctx]@
    }
}

/// The context of the partition at a square.
pub open spec fn context_at(f: TileFrame, row: int, col: int, bsize: u8) -> int {
    partition_context(
        f.above_partition_context@,
        f.left_partition_context@,
        row,
        col,
        bsize,
        square_side(bsize),
    )
}

/// More than half of the square lies in the frame, downwards.
pub open spec fn has_rows(f: TileFrame, row: int, bsize: u8) -> bool {
    row + square_side(bsize) / 2 < f.mi_rows
}

/// More than half of the square lies in the frame, to the right.
pub open spec fn has_cols(f: TileFrame, col: int, bsize: u8) -> bool {
    col + square_side(bsize) / 2 < f.mi_cols
}

/// The counters after a partition: one more of the partition in an inter frame.
/// A counter does not go beyond its greatest value.
pub open spec fn partition_counted(
    before: BlockContexts,
    after: BlockContexts,
    is_intra: bool,
    ctx: int,
    partition: int,
) -> bool {
    &&& after == (BlockContexts { counts: after.counts, ..before })
    &&& after.counts == (Counts { partition: after.counts.partition, ..before.counts })
    &&& forall|i: int, j: int|
        0 <= i < 16 && 0 <= j < 4 ==> #[trigger] after.counts.partition[i][j] == if !is_intra && i
            == ctx && j == partition && before.counts.partition[i][j] < u32::MAX {
            before.counts.partition[i][j] + 1
        } else {
            before.counts.partition[i][j] as int
        }
}

/// Contexts with the units from `start` on set to what a block of `2^log2`
/// blocks of 4 samples leaves there.
pub open spec fn context_filled(before: Seq<u8>, start: int, n: int, log2: u8) -> Seq<u8> {
    Seq::new(
        before.len(),
        |i: int|
            if start <= i < start + n {
                (15int / pow2(log2 as nat) as int) as u8
            } else {
                before[i]
            },
    )
}

/// Every square size divides into sizes that exist, and its parts are half as
/// long in the divided directions.
proof fn lemma_subsizes(bsize: u8, partition: u8)
    requires
        is_square(bsize),
        partition <= 3,
    ensures
        ({
            let sub = SUBSIZE_LOOKUP[partition as int][bsize as int];
            let n = square_side(bsize);
            &&& sub < 13
            &&& B_WIDTH_LOG2_LOOKUP[sub as int] <= 4
            &&& B_HEIGHT_LOG2_LOOKUP[sub as int] <= 4
            &&& bsize == BLOCK_8X8 ==> units_high(sub) == 1 && units_wide(sub) == 1
            &&& bsize == BLOCK_8X8 && partition != PARTITION_NONE ==> sub < BLOCK_8X8
            &&& bsize > BLOCK_8X8 ==> sub >= BLOCK_8X8
            &&& partition == PARTITION_NONE ==> units_high(sub) == n && units_wide(sub) == n
            &&& bsize > BLOCK_8X8 && partition == PARTITION_HORZ ==> units_high(sub) == n / 2
                && units_wide(sub) == n
            &&& bsize > BLOCK_8X8 && partition == PARTITION_VERT ==> units_high(sub) == n
                && units_wide(sub) == n / 2
            &&& bsize > BLOCK_8X8 && partition == PARTITION_SPLIT ==> is_square(sub) && square_side(
                sub,
            ) == n / 2 && sub == half_square(bsize)
        }),
{
}

impl TileDecoder {
    /// Reads the partition of a square.
    fn read_partition(&mut self, r: &mut BoolDecoder, row: u32, col: u32, bsize: u8) -> (p: u8)
        requires
            old(self).frame.wf(),
            square_in(old(self).frame, row as int, col as int, bsize),
            row < old(self).frame.mi_rows,
            col < old(self).frame.mi_cols,
        ensures
            p == partition_at(
                old(r).bytes(),
                old(r).state(),
                partition_probs_of(
                    old(self).frame,
                    context_at(old(self).frame, row as int, col as int, bsize),
                ),
                has_rows(old(self).frame, row as int, bsize),
                has_cols(old(self).frame, col as int, bsize),
            ),
            p <= PARTITION_SPLIT,
            final(r).bytes() == old(r).bytes(),
            final(r).state() == after_partition(
                old(r).bytes(),
                old(r).state(),
                partition_probs_of(
                    old(self).frame,
                    context_at(old(self).frame, row as int, col as int, bsize),
                ),
                has_rows(old(self).frame, row as int, bsize),
                has_cols(old(self).frame, col as int, bsize),
            ),
            final(self).frame == old(self).frame,
            final(self).visited == old(self).visited,
            partition_counted(
                old(self).contexts,
                final(self).contexts,
                old(self).frame.frame_is_intra,
                context_at(old(self).frame, row as int, col as int, bsize),
                p as int,
            ),
    {
        let bsl: u8 = MI_WIDTH_LOG2_LOOKUP[bsize as usize];
        let num8x8: u32 = NUM_8X8_BLOCKS_WIDE_LOOKUP[bsize as usize] as u32;
        assert(num8x8 == square_side(bsize));
        assert(bsl <= 3);
        let half: u32 = num8x8 / 2;
        let rows: bool = row + half < self.frame.mi_rows;
        let cols: bool = col + half < self.frame.mi_cols;
        proof {
            lemma_square_within(self.frame.mi_cols as int, col as int, bsize);
            lemma_left_window(row as int, bsize);
        }
        let left: [u8; 8] = self.frame.left_partition_context;
        let above_bit: bool = find_bit(
            self.frame.above_partition_context.as_slice(),
            col as usize,
            num8x8 as usize,
            3 - bsl as u32,
        );
        let left_bit: bool = find_bit(
            left.as_slice(),
            (row % 8) as usize,
            num8x8 as usize,
            3 - bsl as u32,
        );
        let ctx: usize = bsl as usize * 4 + (if left_bit { 2usize } else { 0usize }) + (if above_bit {
            1usize
        } else {
            0usize
        });
        assert(ctx == context_at(self.frame, row as int, col as int, bsize));
        let probs: [u8; 3] = if self.frame.frame_is_intra {
            KF_PARTITION_PROBS[ctx]
        } else {
            self.frame.probs.partition_probs[ctx]
        };
        let partition: u8 = decode_partition_value(r, &probs, rows, cols);
        if !self.frame.frame_is_intra {
            let mut counters: [u32; 4] = self.contexts.counts.partition[ctx];
            let count: u32 = counters[partition as usize];
            if count < u32::MAX {
                counters[partition as usize] = count + 1;
            }
            self.contexts.counts.partition[ctx] = counters;
        }
        partition
    }

    /// Sets the partition contexts of a square.
    fn fill_partition_contexts(&mut self, row: u32, col: u32, bsize: u8, subsize: u8)
        requires
            old(self).frame.wf(),
            square_in(old(self).frame, row as int, col as int, bsize),
            row < old(self).frame.mi_rows,
            col < old(self).frame.mi_cols,
            subsize < 13,
        ensures
            final(self).frame.wf(),
            final(self).frame.same_setup(&old(self).frame),
            final(self).frame.same_tile(&old(self).frame),
            final(self).frame.mi_grid == old(self).frame.mi_grid,
            final(self).frame.planes == old(self).frame.planes,
            final(self).contexts == old(self).contexts,
            final(self).visited == old(self).visited,
            final(self).frame.above_partition_context@ == context_filled(
                old(self).frame.above_partition_context@,
                col as int,
                square_side(bsize),
                B_WIDTH_LOG2_LOOKUP[subsize as int],
            ),
            final(self).frame.left_partition_context@ == context_filled(
                old(self).frame.left_partition_context@,
                row as int % 8,
                square_side(bsize),
                B_HEIGHT_LOG2_LOOKUP[subsize as int],
            ),
    {
        let num8x8: u32 = NUM_8X8_BLOCKS_WIDE_LOOKUP[bsize as usize] as u32;
        assert(num8x8 == square_side(bsize));
        let ghost before = *self;
        proof {
            lemma_square_within(self.frame.mi_cols as int, col as int, bsize);
            lemma_left_window(row as int, bsize);
            lemma2_to64();
            assert(B_WIDTH_LOG2_LOOKUP[subsize as int] <= 4);
            assert(B_HEIGHT_LOG2_LOOKUP[subsize as int] <= 4);
        }
        let wide: i64 = power_of_two(B_WIDTH_LOG2_LOOKUP[subsize as usize] as u32);
        let high: i64 = power_of_two(B_HEIGHT_LOG2_LOOKUP[subsize as usize] as u32);
        let above_val: u8 = (15 / wide) as u8;
        let left_val: u8 = (15 / high) as u8;
        let start: usize = (row % 8) as usize;
        for i in 0..num8x8
            invariant
                num8x8 == square_side(bsize),
                start == row % 8,
                start + num8x8 <= 8,
                col + num8x8 <= before.frame.above_partition_context@.len(),
                self.frame.above_partition_context@.len()
                    == before.frame.above_partition_context@.len(),
                before.frame.above_partition_context@.len() <= 0x2_0000,
                self.frame == (TileFrame {
                    above_partition_context: self.frame.above_partition_context,
                    left_partition_context: self.frame.left_partition_context,
                    ..before.frame
                }),
                self.contexts == before.contexts,
                self.visited == before.visited,
                forall|k: int|
                    0 <= k < self.frame.above_partition_context@.len()
                        ==> #[trigger] self.frame.above_partition_context@[k] == if col <= k < col
                        + i {
                        above_val
                    } else {
                        before.frame.above_partition_context@[k]
                    },
                forall|k: int|
                    0 <= k < 8 ==> #[trigger] self.frame.left_partition_context@[k] == if start <= k
                        < start + i {
                        left_val
                    } else {
                        before.frame.left_partition_context@[k]
                    },
        {
            self.frame.above_partition_context[(col + i) as usize] = above_val;
            self.frame.left_partition_context[start + i as usize] = left_val;
        }
        assert(self.frame.above_partition_context@ =~= context_filled(
            before.frame.above_partition_context@,
            col as int,
            square_side(bsize),
            B_WIDTH_LOG2_LOOKUP[subsize as int],
        ));
        assert(self.frame.left_partition_context@ =~= context_filled(
            before.frame.left_partition_context@,
            row as int % 8,
            square_side(bsize),
            B_HEIGHT_LOG2_LOOKUP[subsize as int],
        ));
    }

    /// Decodes a block: has it read, checks it and stores it.
    fn decode_block<L: BlockLayer>(
        &mut self,
        layer: &mut L,
        r: &mut BoolDecoder,
        row: u32,
        col: u32,
        subsize: u8,
    ) -> (res: Result<(), TileError>)
        requires
            old(self).frame.wf(),
            subsize < 13,
            row + units_high(subsize) <= old(self).frame.mi_grid.rows,
            col + units_wide(subsize) <= old(self).frame.mi_grid.cols,
        ensures
            final(self).frame.wf(),
            final(self).frame.same_setup(&old(self).frame),
            final(self).frame.same_tile(&old(self).frame),
            final(self).frame.same_partition_contexts(&old(self).frame),
            old(self).visited@.subset_of(final(self).visited@),
            res is Ok ==> rect_visited(
                final(self).visited@,
                final(self).frame,
                row as int,
                col as int,
                units_high(subsize),
                units_wide(subsize),
            ),
            block_walked(
                walk_at(*old(self), *old(r), *old(layer)),
                row as int,
                col as int,
                subsize,
                walk_at(*final(self), *final(r), *final(layer)),
                outcome(res),
            ),
    {
        let ghost start = walk_at(*self, *r, *layer);
        let block: BlockPos = block_position(&self.frame, row, col, subsize);
        let reply: Result<MiInfo, TileError> = if self.frame.frame_is_intra {
            layer.intra_frame_mode_info(&self.frame, &mut self.contexts, r, block)
        } else {
            layer.inter_frame_mode_info(&self.frame, &mut self.contexts, r, block)
        };
        let ghost asked = walk_at(*self, *r, *layer);
        assert(block_asked(start, row as int, col as int, subsize, asked, reply));
        let info: MiInfo = match reply {
            Ok(info) => info,
            Err(e) => {
                proof {
                    lemma_block(
                        start,
                        row as int,
                        col as int,
                        subsize,
                        asked,
                        reply,
                        asked,
                        Some(e),
                    );
                }
                return Err(e);
            },
        };
        match check_block(&self.frame, subsize, &info) {
            Ok(_) => {},
            Err(e) => {
                proof {
                    lemma_block(
                        start,
                        row as int,
                        col as int,
                        subsize,
                        asked,
                        reply,
                        asked,
                        Some(e),
                    );
                }
                return Err(e);
            },
        }
        let is_inter: bool = info.ref_frame[0] != INTRA_FRAME;
        let residual: Residual = layer.residual(
            &self.frame,
            &mut self.contexts,
            r,
            block,
            &info,
            is_inter,
        );
        let ghost rebuilt = walk_at(*self, *r, *layer);
        assert(block_rebuilt(asked, row as int, col as int, subsize, info, rebuilt, residual));
        store_block(&mut self.frame, row, col, subsize, info, &residual);
        proof {
            self.visited@ = self.visited@.union(block_units(row as int, col as int, subsize));
            let after = walk_at(*self, *r, *layer);
            assert(block_kept(rebuilt, row as int, col as int, subsize, info, residual, after));
            lemma_block(start, row as int, col as int, subsize, asked, reply, after, None);
        }
        Ok(())
    }
}

/// The block of a size at a place, as the block layer is told of it.
pub fn block_position(f: &TileFrame, row: u32, col: u32, size: u8) -> (block: BlockPos)
    ensures
        block == block_pos(*f, row as int, col as int, size),
{
    BlockPos { row, col, size, avail_above: row > 0, avail_left: col > f.mi_col_start }
}

/// A block is done when its mode info has been asked for and the answer has been
/// acted on.
proof fn lemma_block<L: BlockLayer>(
    before: Walk<L>,
    row: int,
    col: int,
    size: u8,
    asked: Walk<L>,
    reply: Result<MiInfo, TileError>,
    after: Walk<L>,
    res: Option<TileError>,
)
    requires
        block_asked(before, row, col, size, asked, reply),
        block_answered(asked, row, col, size, reply, after, res),
    ensures
        block_walked(before, row, col, size, after, res),
{
    reveal(block_walked);
}

#[verifier::spinoff_prover]
proof fn lemma_square_within(count: int, pos: int, bsize: u8)
    requires
        is_square(bsize),
        0 <= pos < count,
        pos % square_side(bsize) == 0,
    ensures
        pos + square_side(bsize) <= 8 * units8(count),
{
    let n = square_side(bsize);
    if n == 1 {
    } else if n == 2 {
        assert(pos % 2 == 0);
    } else if n == 4 {
        assert(pos % 4 == 0);
    } else {
        assert(pos % 8 == 0);
    }
}

proof fn lemma_left_window(row: int, bsize: u8)
    requires
        is_square(bsize),
        0 <= row,
        row % square_side(bsize) == 0,
    ensures
        row % 8 + square_side(bsize) <= 8,
{
    let n = square_side(bsize);
    if n == 1 {
    } else if n == 2 {
        assert(row % 2 == 0);
    } else if n == 4 {
        assert(row % 4 == 0);
    } else {
        assert(row % 8 == 0);
    }
}

/// What holds whatever the blocks turn out to be: the frame stays well formed,
/// and visited units stay visited.
pub open spec fn walk_keeps(before: TileDecoder, after: TileDecoder) -> bool {
    &&& after.frame.wf()
    &&& after.frame.same_setup(&before.frame)
    &&& after.frame.same_tile(&before.frame)
    &&& before.visited@.subset_of(after.visited@)
}

/// The partition that is read for a square.
pub open spec fn partition_of(
    d: Seq<u8>,
    st: crate::bool_coder::BoolState,
    f: TileFrame,
    row: int,
    col: int,
    bsize: u8,
) -> int {
    partition_at(
        d,
        st,
        partition_probs_of(f, context_at(f, row, col, bsize)),
        has_rows(f, row, bsize),
        has_cols(f, col, bsize),
    )
}

/// A rectangle made of two, side by side.
proof fn lemma_rect_join(
    v: Set<(int, int)>,
    f: TileFrame,
    row: int,
    col: int,
    high: int,
    wide: int,
    split_rows: int,
    split_cols: int,
)
    requires
        0 <= split_rows <= high,
        0 <= split_cols <= wide,
        rect_visited(v, f, row, col, split_rows, split_cols),
        rect_visited(v, f, row, col + split_cols, split_rows, wide - split_cols),
        rect_visited(v, f, row + split_rows, col, high - split_rows, split_cols),
        rect_visited(
            v,
            f,
            row + split_rows,
            col + split_cols,
            high - split_rows,
            wide - split_cols,
        ),
    ensures
        rect_visited(v, f, row, col, high, wide),
{
    assert forall|r: int, c: int|
        row <= r < row + high && col <= c < col + wide && r < f.mi_rows && c < f.mi_cols
            implies #[trigger] v.contains((r, c)) by {
        if r < row + split_rows {
            if c < col + split_cols {
                assert(v.contains((r, c)));
            } else {
                assert(v.contains((r, c)));
            }
        }
    }
}

/// A rectangle stays visited.
proof fn lemma_rect_grows(
    v: Set<(int, int)>,
    w: Set<(int, int)>,
    f: TileFrame,
    g: TileFrame,
    row: int,
    col: int,
    high: int,
    wide: int,
)
    requires
        v.subset_of(w),
        g.mi_rows == f.mi_rows,
        g.mi_cols == f.mi_cols,
        rect_visited(v, f, row, col, high, wide),
    ensures
        rect_visited(w, g, row, col, high, wide),
{
    assert forall|r: int, c: int|
        row <= r < row + high && col <= c < col + wide && r < g.mi_rows && c < g.mi_cols
            implies #[trigger] w.contains((r, c)) by {
        assert(v.contains((r, c)));
    }
}

impl TileDecoder {
    /// Decodes a square: reads its partition and decodes its blocks, or its
    /// four quarters.
    #[verifier::spinoff_prover]
    fn decode_partition<L: BlockLayer>(
        &mut self,
        layer: &mut L,
        r: &mut BoolDecoder,
        row: u32,
        col: u32,
        bsize: u8,
    ) -> (res: Result<(), TileError>)
        requires
            old(self).frame.wf(),
            square_in(old(self).frame, row as int, col as int, bsize),
            row <= 0x1_0000,
            col <= 0x1_0000,
        ensures
            walk_keeps(*old(self), *final(self)),
            res is Ok ==> rect_visited(
                final(self).visited@,
                final(self).frame,
                row as int,
                col as int,
                square_side(bsize),
                square_side(bsize),
            ),
            square_walked(
                walk_at(*old(self), *old(r), *old(layer)),
                row as int,
                col as int,
                bsize,
                walk_at(*final(self), *final(r), *final(layer)),
                outcome(res),
            ),
        decreases square_side(bsize), 1int,
    {
        if row >= self.frame.mi_rows || col >= self.frame.mi_cols {
            proof {
                reveal(square_walked);
            }
            return Ok(());
        }
        let ghost start = walk_at(*self, *r, *layer);
        let partition: u8 = self.read_partition(r, row, col, bsize);
        let ghost read = walk_at(*self, *r, *layer);
        assert(partition_read(start, row as int, col as int, bsize, read));
        let subsize: u8 = SUBSIZE_LOOKUP[partition as usize][bsize as usize];
        proof {
            lemma_subsizes(bsize, partition);
        }
        if subsize == BLOCK_INVALID {
            return Err(TileError::InvalidPartition);
        }
        let parts: Result<(), TileError> = self.decode_parts(
            layer,
            r,
            row,
            col,
            bsize,
            partition,
            subsize,
        );
        let ghost done = walk_at(*self, *r, *layer);
        if parts.is_ok() && (bsize == BLOCK_8X8 || partition != PARTITION_SPLIT) {
            self.fill_partition_contexts(row, col, bsize, subsize);
        }
        proof {
            lemma_square(
                start,
                row as int,
                col as int,
                bsize,
                read,
                done,
                walk_at(*self, *r, *layer),
                outcome(parts),
            );
        }
        parts
    }

    /// Decodes the parts of a square: one block, two blocks, or four squares.
    #[verifier::spinoff_prover]
    fn decode_parts<L: BlockLayer>(
        &mut self,
        layer: &mut L,
        r: &mut BoolDecoder,
        row: u32,
        col: u32,
        bsize: u8,
        partition: u8,
        subsize: u8,
    ) -> (res: Result<(), TileError>)
        requires
            old(self).frame.wf(),
            square_in(old(self).frame, row as int, col as int, bsize),
            row < old(self).frame.mi_rows,
            col < old(self).frame.mi_cols,
            partition <= PARTITION_SPLIT,
            subsize == SUBSIZE_LOOKUP[partition as int][bsize as int],
        ensures
            walk_keeps(*old(self), *final(self)),
            res is Ok ==> rect_visited(
                final(self).visited@,
                final(self).frame,
                row as int,
                col as int,
                square_side(bsize),
                square_side(bsize),
            ),
            parts_walked(
                walk_at(*old(self), *old(r), *old(layer)),
                row as int,
                col as int,
                bsize,
                partition as int,
                walk_at(*final(self), *final(r), *final(layer)),
                outcome(res),
            ),
        decreases square_side(bsize), 0int,
    {
        let n: u32 = NUM_8X8_BLOCKS_WIDE_LOOKUP[bsize as usize] as u32;
        assert(n == square_side(bsize));
        let half: u32 = n / 2;
        proof {
            lemma_subsizes(bsize, partition);
            lemma_square_within(self.frame.mi_cols as int, col as int, bsize);
            lemma_square_within(self.frame.mi_rows as int, row as int, bsize);
            reveal(parts_walked);
        }
        if subsize < BLOCK_8X8 || partition == PARTITION_NONE {
            self.decode_block(layer, r, row, col, subsize)
        } else if partition == PARTITION_HORZ {
            let second: bool = row + half < self.frame.mi_rows;
            self.decode_pair(layer, r, row, col, half, 0, second, subsize, n)
        } else if partition == PARTITION_VERT {
            let second: bool = col + half < self.frame.mi_cols;
            self.decode_pair(layer, r, row, col, 0, half, second, subsize, n)
        } else {
            self.decode_quarters(layer, r, row, col, half, subsize)
        }
    }

    /// Decodes the two halves of a square of `n` units: the second one, which
    /// stands `down` units below and `right` units to the right of the first,
    /// only where it is in the frame.
    #[verifier::spinoff_prover]
    fn decode_pair<L: BlockLayer>(
        &mut self,
        layer: &mut L,
        r: &mut BoolDecoder,
        row: u32,
        col: u32,
        down: u32,
        right: u32,
        second: bool,
        subsize: u8,
        n: u32,
    ) -> (res: Result<(), TileError>)
        requires
            old(self).frame.wf(),
            subsize < 13,
            2 <= n <= 8,
            n % 2 == 0,
            (down == n / 2 && right == 0 && units_high(subsize) == n / 2 && units_wide(subsize)
                == n && second == (row + n / 2 < old(self).frame.mi_rows)) || (down == 0 && right
                == n / 2 && units_high(subsize) == n && units_wide(subsize) == n / 2 && second == (
            col + n / 2 < old(self).frame.mi_cols)),
            row + n <= old(self).frame.mi_grid.rows,
            col + n <= old(self).frame.mi_grid.cols,
        ensures
            walk_keeps(*old(self), *final(self)),
            final(self).frame.same_partition_contexts(&old(self).frame),
            res is Ok ==> rect_visited(
                final(self).visited@,
                final(self).frame,
                row as int,
                col as int,
                n as int,
                n as int,
            ),
            pair_walked(
                walk_at(*old(self), *old(r), *old(layer)),
                row as int,
                col as int,
                row + down,
                col + right,
                second,
                subsize,
                walk_at(*final(self), *final(r), *final(layer)),
                outcome(res),
            ),
    {
        proof {
            reveal(pair_walked);
        }
        let ghost start = walk_at(*self, *r, *layer);
        match self.decode_block(layer, r, row, col, subsize) {
            Ok(_) => {},
            Err(e) => {
                assert(block_walked(
                    start,
                    row as int,
                    col as int,
                    subsize,
                    walk_at(*self, *r, *layer),
                    Some(e),
                ));
                return Err(e);
            },
        }
        let ghost first = *self;
        assert(
            block_walked(start, row as int, col as int, subsize, walk_at(*self, *r, *layer), None)
        );
        if second {
            match self.decode_block(layer, r, row + down, col + right, subsize) {
                Ok(_) => {},
                Err(e) => {
                    return Err(e);
                },
            }
        }
        proof {
            lemma_rect_grows(
                first.visited@,
                self.visited@,
                first.frame,
                self.frame,
                row as int,
                col as int,
                units_high(subsize),
                units_wide(subsize),
            );
            lemma_rect_join(
                self.visited@,
                self.frame,
                row as int,
                col as int,
                n as int,
                n as int,
                units_high(subsize),
                units_wide(subsize),
            );
        }
        Ok(())
    }

    /// Decodes the four quarters of a square of twice `half` units.
    fn decode_quarters<L: BlockLayer>(
        &mut self,
        layer: &mut L,
        r: &mut BoolDecoder,
        row: u32,
        col: u32,
        half: u32,
        subsize: u8,
    ) -> (res: Result<(), TileError>)
        requires
            old(self).frame.wf(),
            is_square(subsize),
            half == square_side(subsize),
            row as int % (2 * half) == 0,
            col as int % (2 * half) == 0,
            row < 0x1_0000 - 16,
            col < 0x1_0000 - 16,
        ensures
            walk_keeps(*old(self), *final(self)),
            res is Ok ==> rect_visited(
                final(self).visited@,
                final(self).frame,
                row as int,
                col as int,
                2 * half as int,
                2 * half as int,
            ),
            quarters_walked(
                walk_at(*old(self), *old(r), *old(layer)),
                row as int,
                col as int,
                subsize,
                walk_at(*final(self), *final(r), *final(layer)),
                outcome(res),
            ),
        decreases square_side(subsize), 2int,
    {
        proof {
            lemma_quarters_aligned(row as int, half as int);
            lemma_quarters_aligned(col as int, half as int);
        }
        let ghost w0 = walk_at(*self, *r, *layer);
        match self.decode_partition(layer, r, row, col, subsize) {
            Ok(_) => {},
            Err(e) => {
                proof {
                    lemma_quarters(
                        seq![w0, walk_at(*self, *r, *layer)],
                        row as int,
                        col as int,
                        subsize,
                        Some(e),
                    );
                }
                return Err(e);
            },
        }
        let ghost w1 = walk_at(*self, *r, *layer);
        let ghost s1 = *self;
        match self.decode_partition(layer, r, row, col + half, subsize) {
            Ok(_) => {},
            Err(e) => {
                proof {
                    lemma_quarters(
                        seq![w0, w1, walk_at(*self, *r, *layer)],
                        row as int,
                        col as int,
                        subsize,
                        Some(e),
                    );
                }
                return Err(e);
            },
        }
        let ghost w2 = walk_at(*self, *r, *layer);
        let ghost s2 = *self;
        match self.decode_partition(layer, r, row + half, col, subsize) {
            Ok(_) => {},
            Err(e) => {
                proof {
                    lemma_quarters(
                        seq![w0, w1, w2, walk_at(*self, *r, *layer)],
                        row as int,
                        col as int,
                        subsize,
                        Some(e),
                    );
                }
                return Err(e);
            },
        }
        let ghost w3 = walk_at(*self, *r, *layer);
        let ghost s3 = *self;
        match self.decode_partition(layer, r, row + half, col + half, subsize) {
            Ok(_) => {},
            Err(e) => {
                proof {
                    lemma_quarters(
                        seq![w0, w1, w2, w3, walk_at(*self, *r, *layer)],
                        row as int,
                        col as int,
                        subsize,
                        Some(e),
                    );
                }
                return Err(e);
            },
        }
        let ghost w4 = walk_at(*self, *r, *layer);
        proof {
            let h = half as int;
            let v = self.visited@;
            lemma_rect_grows(s1.visited@, v, s1.frame, self.frame, row as int, col as int, h, h);
            lemma_rect_grows(s2.visited@, v, s2.frame, self.frame, row as int, col + h, h, h);
            lemma_rect_grows(s3.visited@, v, s3.frame, self.frame, row + h, col as int, h, h);
            lemma_rect_join(v, self.frame, row as int, col as int, 2 * h, 2 * h, h, h);
            lemma_quarters(seq![w0, w1, w2, w3, w4], row as int, col as int, subsize, None);
        }
        Ok(())
    }
}

/// A square in the frame is done when its partition has been read, its parts
/// have been decoded and its contexts set.
proof fn lemma_square<L: BlockLayer>(
    start: Walk<L>,
    row: int,
    col: int,
    bsize: u8,
    read: Walk<L>,
    done: Walk<L>,
    after: Walk<L>,
    res: Option<TileError>,
)
    requires
        row < start.tiles.frame.mi_rows,
        col < start.tiles.frame.mi_cols,
        partition_read(start, row, col, bsize, read),
        ({
            let p = partition_of(start.data, start.st, start.tiles.frame, row, col, bsize);
            &&& parts_walked(read, row, col, bsize, p, done, res)
            &&& square_closed(done, row, col, bsize, p, after, res)
        }),
    ensures
        square_walked(start, row, col, bsize, after, res),
{
    reveal(square_walked);
    reveal(parts_walked);
}

/// The squares that have been decoded make up the four quarters.
proof fn lemma_quarters<L: BlockLayer>(
    states: Seq<Walk<L>>,
    row: int,
    col: int,
    size: u8,
    res: Option<TileError>,
)
    requires
        2 <= states.len() <= 5,
        res is None ==> states.len() == 5,
        ({
            let h = square_side(size);
            &&& square_walked(states[0], row, col, size, states[1], step_outcome(states, 0, res))
            &&& states.len() > 2 ==> square_walked(
                states[1],
                row,
                col + h,
                size,
                states[2],
                step_outcome(states, 1, res),
            )
            &&& states.len() > 3 ==> square_walked(
                states[2],
                row + h,
                col,
                size,
                states[3],
                step_outcome(states, 2, res),
            )
            &&& states.len() > 4 ==> square_walked(
                states[3],
                row + h,
                col + h,
                size,
                states[4],
                step_outcome(states, 3, res),
            )
        }),
    ensures
        quarters_walked(states[0], row, col, size, states.last(), res),
{
    reveal(quarters_walked);
    reveal(square_walked);
    let h = square_side(size);
    assert(0 * h == 0 && 1 * h == h);
    assert forall|k: int|
        #![trigger states[k]]
        0 <= k < states.len() - 1 implies square_walked(
        states[k],
        row + k / 2 * h,
        col + k % 2 * h,
        size,
        states[k + 1],
        step_outcome(states, k, res),
    ) by {
        assert(k == 0 || k == 1 || k == 2 || k == 3);
    }
    assert(chain_of(states, 4, states[0], states.last(), res));
}

proof fn lemma_quarters_aligned(pos: int, half: int)
    requires
        half == 1 || half == 2 || half == 4 || half == 8,
        pos % (2 * half) == 0,
        0 <= pos,
    ensures
        pos % half == 0,
        (pos + half) % half == 0,
{
    if half == 1 {
    } else if half == 2 {
        assert(pos % 4 == 0);
    } else if half == 4 {
        assert(pos % 8 == 0);
    } else {
        assert(pos % 16 == 0);
    }
}

/// The current tile is a part of the frame that starts at whole superblocks.
pub open spec fn tile_ok(f: TileFrame) -> bool {
    &&& f.mi_row_start <= f.mi_row_end <= f.mi_rows
    &&& f.mi_col_start <= f.mi_col_end <= f.mi_cols
    &&& f.mi_row_start % 8 == 0 || f.mi_row_start == f.mi_row_end
    &&& f.mi_col_start % 8 == 0 || f.mi_col_start == f.mi_col_end
}

/// What holds of a whole walk over the tiles, whatever the blocks turn out to
/// be.
pub open spec fn tiles_keep(before: TileDecoder, after: TileDecoder) -> bool {
    &&& after.frame.wf()
    &&& after.frame.same_setup(&before.frame)
    &&& before.visited@.subset_of(after.visited@)
}

/// The number of tiles is small enough to be counted.
pub open spec fn tile_counts_ok(f: TileFrame) -> bool {
    f.tile_cols_log2 <= 12 && f.tile_rows_log2 <= 12
}

/// The rows of superblocks from `top` on have been decoded, as many as there
/// are steps between the states.
spec fn rows_done<L: BlockLayer>(states: Seq<Walk<L>>, first: Walk<L>, top: int) -> bool {
    &&& states.len() >= 1
    &&& states[0] == first
    &&& forall|k: int|
        #![trigger states[k]]
        0 <= k < states.len() - 1 ==> row_walked(states[k], top + 8 * k, states[k + 1], None)
}

/// The superblocks of a row from `left` on have been decoded, as many as there
/// are steps between the places.
spec fn superblocks_done<L: BlockLayer>(
    places: Seq<Walk<L>>,
    first: Walk<L>,
    row: int,
    left: int,
) -> bool {
    &&& places.len() >= 1
    &&& places[0] == first
    &&& forall|k: int|
        #![trigger places[k]]
        0 <= k < places.len() - 1 ==> square_walked(
            places[k],
            row,
            left + 8 * k,
            BLOCK_64X64,
            places[k + 1],
            None,
        )
}

/// A row ends after its last superblock, or after one that fails.
#[verifier::spinoff_prover]
proof fn lemma_row_ends<L: BlockLayer>(
    before: Walk<L>,
    cleared: Walk<L>,
    places: Seq<Walk<L>>,
    row: int,
    res: Option<TileError>,
)
    requires
        left_cleared(before, cleared),
        places.len() >= 1,
        places[0] == cleared,
        ({
            let f = before.tiles.frame;
            let n = superblocks_between(f.mi_col_start as int, f.mi_col_end as int);
            &&& places.len() <= n + 1
            &&& res is None ==> places.len() == n + 1
            &&& res is Some ==> places.len() >= 2
            &&& forall|k: int|
                #![trigger places[k]]
                0 <= k < places.len() - 1 ==> square_walked(
                    places[k],
                    row,
                    f.mi_col_start + 8 * k,
                    BLOCK_64X64,
                    places[k + 1],
                    step_outcome(places, k, res),
                )
        }),
    ensures
        row_walked(before, row, places.last(), res),
{
    reveal(row_walked);
    let f = before.tiles.frame;
    let n = superblocks_between(f.mi_col_start as int, f.mi_col_end as int);
    assert(chain_of(places, n, cleared, places.last(), res));
}

/// A tile ends after its last row, or after one that fails.
#[verifier::spinoff_prover]
proof fn lemma_rows_end<L: BlockLayer>(states: Seq<Walk<L>>, first: Walk<L>, res: Option<TileError>)
    requires
        states.len() >= 1,
        states[0] == first,
        ({
            let f = first.tiles.frame;
            let n = superblocks_between(f.mi_row_start as int, f.mi_row_end as int);
            &&& states.len() <= n + 1
            &&& res is None ==> states.len() == n + 1
            &&& res is Some ==> states.len() >= 2
            &&& forall|k: int|
                #![trigger states[k]]
                0 <= k < states.len() - 1 ==> row_walked(
                    states[k],
                    f.mi_row_start + 8 * k,
                    states[k + 1],
                    step_outcome(states, k, res),
                )
        }),
    ensures
        rows_walked(first, states.last(), res),
{
    reveal(rows_walked);
    let f = first.tiles.frame;
    let n = superblocks_between(f.mi_row_start as int, f.mi_row_end as int);
    assert(chain_of(states, n, first, states.last(), res));
}

impl TileDecoder {
    /// Decodes the superblocks of the current tile.
    #[verifier::spinoff_prover]
    fn decode_tile<L: BlockLayer>(&mut self, layer: &mut L, r: &mut BoolDecoder) -> (res: Result<
        (),
        TileError,
    >)
        requires
            old(self).frame.wf(),
            tile_ok(old(self).frame),
        ensures
            walk_keeps(*old(self), *final(self)),
            res is Ok ==> rect_visited(
                final(self).visited@,
                final(self).frame,
                old(self).frame.mi_row_start as int,
                old(self).frame.mi_col_start as int,
                old(self).frame.mi_row_end - old(self).frame.mi_row_start,
                old(self).frame.mi_col_end - old(self).frame.mi_col_start,
            ),
            rows_walked(
                walk_at(*old(self), *old(r), *old(layer)),
                walk_at(*final(self), *final(r), *final(layer)),
                outcome(res),
            ),
    {
        let ghost start = *self;
        let ghost top = start.frame.mi_row_start as int;
        let ghost left = start.frame.mi_col_start as int;
        let ghost first = walk_at(*self, *r, *layer);
        let ghost mut states: Seq<Walk<L>> = seq![first];
        let mut row: u32 = self.frame.mi_row_start;
        while row < self.frame.mi_row_end
            invariant
                start == *old(self),
                first == walk_at(*old(self), *old(r), *old(layer)),
                top == start.frame.mi_row_start,
                left == start.frame.mi_col_start,
                walk_keeps(start, *self),
                tile_ok(start.frame),
                start.frame.wf(),
                row == top + 8 * (states.len() - 1),
                rows_done(states, first, top),
                states.last() == walk_at(*self, *r, *layer),
                start.frame.mi_row_start <= row,
                row < start.frame.mi_row_end + 8,
                start.frame.mi_row_start < start.frame.mi_row_end ==> row % 8 == 0,
                rect_visited(
                    self.visited@,
                    self.frame,
                    start.frame.mi_row_start as int,
                    start.frame.mi_col_start as int,
                    row - start.frame.mi_row_start,
                    start.frame.mi_col_end - start.frame.mi_col_start,
                ),
            decreases start.frame.mi_row_end + 8 - row,
        {
            let ghost before_row = walk_at(*self, *r, *layer);
            self.clear_left_context();
            let ghost cleared = walk_at(*self, *r, *layer);
            assert(left_cleared(before_row, cleared));
            let ghost mut places: Seq<Walk<L>> = seq![cleared];
            let mut col: u32 = self.frame.mi_col_start;
            while col < self.frame.mi_col_end
                invariant
                    start == *old(self),
                    first == walk_at(*old(self), *old(r), *old(layer)),
                    top == start.frame.mi_row_start,
                    left == start.frame.mi_col_start,
                    row == top + 8 * (states.len() - 1),
                    rows_done(states, first, top),
                    states.last() == before_row,
                    before_row.tiles.frame.same_tile(&start.frame),
                    left_cleared(before_row, cleared),
                    col == left + 8 * (places.len() - 1),
                    superblocks_done(places, cleared, row as int, left),
                    places.last() == walk_at(*self, *r, *layer),
                    walk_keeps(start, *self),
                    tile_ok(start.frame),
                    start.frame.wf(),
                    start.frame.mi_row_start <= row < start.frame.mi_row_end,
                    row % 8 == 0,
                    start.frame.mi_col_start <= col,
                    col < start.frame.mi_col_end + 8,
                    start.frame.mi_col_start < start.frame.mi_col_end ==> col % 8 == 0,
                    rect_visited(
                        self.visited@,
                        self.frame,
                        start.frame.mi_row_start as int,
                        start.frame.mi_col_start as int,
                        row - start.frame.mi_row_start,
                        start.frame.mi_col_end - start.frame.mi_col_start,
                    ),
                    rect_visited(
                        self.visited@,
                        self.frame,
                        row as int,
                        start.frame.mi_col_start as int,
                        8,
                        col - start.frame.mi_col_start,
                    ),
                decreases start.frame.mi_col_end + 8 - col,
            {
                let ghost before = *self;
                match self.decode_partition(layer, r, row, col, BLOCK_64X64) {
                    Ok(_) => {},
                    Err(e) => {
                        proof {
                            let place = walk_at(*self, *r, *layer);
                            lemma_row_ends(
                                before_row,
                                cleared,
                                places.push(place),
                                row as int,
                                Some(e),
                            );
                            lemma_rows_end(states.push(place), first, Some(e));
                        }
                        return Err(e);
                    },
                }
                proof {
                    lemma_rect_grows(
                        before.visited@,
                        self.visited@,
                        before.frame,
                        self.frame,
                        start.frame.mi_row_start as int,
                        start.frame.mi_col_start as int,
                        row - start.frame.mi_row_start,
                        start.frame.mi_col_end - start.frame.mi_col_start,
                    );
                    lemma_rect_grows(
                        before.visited@,
                        self.visited@,
                        before.frame,
                        self.frame,
                        row as int,
                        start.frame.mi_col_start as int,
                        8,
                        col - start.frame.mi_col_start,
                    );
                    lemma_rect_join(
                        self.visited@,
                        self.frame,
                        row as int,
                        start.frame.mi_col_start as int,
                        8,
                        col - start.frame.mi_col_start + 8,
                        8,
                        col - start.frame.mi_col_start,
                    );
                }
                col += 8;
                proof {
                    places = places.push(walk_at(*self, *r, *layer));
                }
            }
            proof {
                lemma_row_ends(before_row, cleared, places, row as int, None);
                states = states.push(walk_at(*self, *r, *layer));
                let wide = start.frame.mi_col_end - start.frame.mi_col_start;
                assert(rect_visited(
                    self.visited@,
                    self.frame,
                    row as int,
                    start.frame.mi_col_start as int,
                    8,
                    wide,
                )) by {
                    assert forall|r2: int, c2: int|
                        row <= r2 < row + 8 && start.frame.mi_col_start <= c2
                            < start.frame.mi_col_start + wide && r2 < self.frame.mi_rows && c2
                            < self.frame.mi_cols implies #[trigger] self.visited@.contains(
                        (r2, c2),
                    ) by {}
                }
                lemma_rect_join(
                    self.visited@,
                    self.frame,
                    start.frame.mi_row_start as int,
                    start.frame.mi_col_start as int,
                    row - start.frame.mi_row_start + 8,
                    wide,
                    row - start.frame.mi_row_start,
                    wide,
                );
            }
            row += 8;
        }
        proof {
            lemma_rows_end(states, first, None);
        }
        Ok(())
    }

    /// Decodes the current tile from its bytes, and refuses it where the
    /// decoder ends far from the end of them.
    fn decode_tile_bytes<L: BlockLayer>(
        &mut self,
        layer: &mut L,
        tile_bytes: &[u8],
    ) -> (res: Result<
        (),
        TileError,
    >)
        requires
            old(self).frame.wf(),
            tile_ok(old(self).frame),
            8 * tile_bytes.len() <= usize::MAX,
        ensures
            walk_keeps(*old(self), *final(self)),
            res is Ok ==> rect_visited(
                final(self).visited@,
                final(self).frame,
                old(self).frame.mi_row_start as int,
                old(self).frame.mi_col_start as int,
                old(self).frame.mi_row_end - old(self).frame.mi_row_start,
                old(self).frame.mi_col_end - old(self).frame.mi_col_start,
            ),
            tile_walked(
                stop_at(*old(self), *old(layer)),
                tile_bytes@,
                stop_at(*final(self), *final(layer)),
                outcome(res),
            ),
    {
        proof {
            reveal(tile_walked);
        }
        let mut r: BoolDecoder = match BoolDecoder::new(tile_bytes) {
            Ok(r) => r,
            Err(e) => {
                return Err(TileError::BoolCoder(e));
            },
        };
        let ghost first = walk_at(*self, r, *layer);
        match self.decode_tile(layer, &mut r) {
            Ok(_) => {},
            Err(e) => {
                assert(rows_walked(first, walk_at(*self, r, *layer), Some(e)));
                return Err(e);
            },
        }
        assert(rows_walked(first, walk_at(*self, r, *layer), None));
        match check_tile_read_bounds(&r, tile_bytes) {
            Ok(_) => {},
            Err(e) => {
                return Err(e);
            },
        }
        r.exit_bool();
        Ok(())
    }

    /// Makes a tile the current one.
    fn enter_tile(&mut self, tile_row: u32, tile_col: u32)
        requires
            old(self).frame.wf(),
            tile_counts_ok(old(self).frame),
            tile_row < pow2(old(self).frame.tile_rows_log2 as nat),
            tile_col < pow2(old(self).frame.tile_cols_log2 as nat),
        ensures
            tile_entered(*old(self), tile_row as int, tile_col as int, *final(self)),
            tile_ok(final(self).frame),
    {
        let mi_rows: u32 = self.frame.mi_rows;
        let mi_cols: u32 = self.frame.mi_cols;
        let rows_log2: u32 = self.frame.tile_rows_log2;
        let cols_log2: u32 = self.frame.tile_cols_log2;
        proof {
            lemma_offset_small(tile_row as int, mi_rows as int, rows_log2 as nat);
            lemma_offset_small(tile_row + 1, mi_rows as int, rows_log2 as nat);
            lemma_offset_small(tile_col as int, mi_cols as int, cols_log2 as nat);
            lemma_offset_small(tile_col + 1, mi_cols as int, cols_log2 as nat);
            lemma_tiles_cover(mi_rows as int, rows_log2 as nat, tile_row as int);
            lemma_tiles_cover(mi_cols as int, cols_log2 as nat, tile_col as int);
        }
        self.frame.mi_row_start = get_tile_offset(tile_row, mi_rows, rows_log2);
        self.frame.mi_row_end = get_tile_offset(tile_row + 1, mi_rows, rows_log2);
        self.frame.mi_col_start = get_tile_offset(tile_col, mi_cols, cols_log2);
        self.frame.mi_col_end = get_tile_offset(tile_col + 1, mi_cols, cols_log2);
    }

    /// Decodes all tiles of the frame from the data that follows the headers.
    ///
    /// Fails before it changes anything where the data cannot be split into
    /// tiles. On success every unit of the frame has been visited.
    #[verifier::spinoff_prover]
    #[verifier::rlimit(40)]
    pub fn decode_tiles<L: BlockLayer>(&mut self, layer: &mut L, data: &[u8]) -> (res: Result<
        (),
        TileError,
    >)
        requires
            old(self).frame.wf(),
            tile_counts_ok(old(self).frame),
            8 * data.len() <= usize::MAX,
        ensures
            tiles_keep(*old(self), *final(self)),
            match tiles_of(
                data@,
                (pow2(old(self).frame.tile_rows_log2 as nat) * pow2(
                    old(self).frame.tile_cols_log2 as nat,
                )) as nat,
            ) {
                None => {
                    &&& outcome(res) == Some(TileError::InvalidTileSize)
                    &&& *final(self) == *old(self)
                    &&& *final(layer) == *old(layer)
                },
                Some(tiles) => tiles_walked(
                    stop_at(*old(self), *old(layer)),
                    tiles,
                    stop_at(*final(self), *final(layer)),
                    outcome(res),
                ),
            },
            res is Ok ==> frame_visited(final(self).visited@, final(self).frame),
    {
        proof {
            lemma2_to64();
        }
        let tile_cols: u32 = power_of_two(self.frame.tile_cols_log2) as u32;
        let tile_rows: u32 = power_of_two(self.frame.tile_rows_log2) as u32;
        let ghost start = *self;
        proof {
            lemma_tile_count(tile_rows as int, tile_cols as int);
        }
        let tiles: Vec<&[u8]> = match split_tiles(data, (tile_rows * tile_cols) as usize) {
            Ok(tiles) => tiles,
            Err(e) => {
                return Err(e);
            },
        };
        let ghost all = tiles_of(data@, (tile_rows * tile_cols) as nat)->0;
        self.clear_above_context();
        let ghost mut states: Seq<Stop<L>> = seq![stop_at(*self, *layer)];
        assert(above_cleared(start, states[0].tiles));
        let ghost rl = start.frame.tile_rows_log2 as nat;
        let ghost cl = start.frame.tile_cols_log2 as nat;
        let ghost mr = start.frame.mi_rows as int;
        let ghost mc = start.frame.mi_cols as int;
        proof {
            lemma_tiles_cover(mr, rl, 0);
        }
        for tile_row in 0..tile_rows
            invariant
                start == *old(self),
                tiles_of(data@, (pow2(rl) * pow2(cl)) as nat) is Some,
                start.frame.wf(),
                tile_counts_ok(start.frame),
                tiles_keep(start, *self),
                rl == start.frame.tile_rows_log2,
                cl == start.frame.tile_cols_log2,
                mr == start.frame.mi_rows,
                mc == start.frame.mi_cols,
                tile_rows == pow2(rl),
                tile_cols == pow2(cl),
                1 <= tile_rows <= 4096,
                1 <= tile_cols <= 4096,
                tiles.len() == tile_rows * tile_cols,
                all == tiles_of(data@, (pow2(rl) * pow2(cl)) as nat)->0,
                all.len() == tiles.len(),
                forall|i: int| 0 <= i < tiles.len() ==> #[trigger] tiles[i]@ == all[i],
                states.len() == tile_row * tile_cols + 1,
                above_cleared(start, states[0].tiles),
                states[0].layer == *old(layer),
                states.last() == stop_at(*self, *layer),
                first_tiles_done(states, all, cl),
                8 * data.len() <= usize::MAX,
                forall|i: int| 0 <= i < tiles.len() ==> (#[trigger] tiles[i]).len() <= data.len(),
                rect_visited(
                    self.visited@,
                    self.frame,
                    0,
                    0,
                    tile_offset(tile_row as int, mr, rl),
                    mc,
                ),
        {
            proof {
                lemma_tiles_cover(mc, cl, 0);
                lemma_tiles_cover(mr, rl, tile_row as int);
            }
            for tile_col in 0..tile_cols
                invariant
                    start == *old(self),
                    tiles_of(data@, (pow2(rl) * pow2(cl)) as nat) is Some,
                    start.frame.wf(),
                    tile_counts_ok(start.frame),
                    tiles_keep(start, *self),
                    rl == start.frame.tile_rows_log2,
                    cl == start.frame.tile_cols_log2,
                    mr == start.frame.mi_rows,
                    mc == start.frame.mi_cols,
                    tile_rows == pow2(rl),
                    tile_cols == pow2(cl),
                    1 <= tile_rows <= 4096,
                    1 <= tile_cols <= 4096,
                    tile_row < tile_rows,
                    tiles.len() == tile_rows * tile_cols,
                    all == tiles_of(data@, (pow2(rl) * pow2(cl)) as nat)->0,
                    all.len() == tiles.len(),
                    forall|i: int| 0 <= i < tiles.len() ==> #[trigger] tiles[i]@ == all[i],
                    states.len() == tile_row * tile_cols + tile_col + 1,
                    above_cleared(start, states[0].tiles),
                    states[0].layer == *old(layer),
                    states.last() == stop_at(*self, *layer),
                    first_tiles_done(states, all, cl),
                    8 * data.len() <= usize::MAX,
                    forall|i: int|
                        0 <= i < tiles.len() ==> (#[trigger] tiles[i]).len() <= data.len(),
                    rect_visited(
                        self.visited@,
                        self.frame,
                        0,
                        0,
                        tile_offset(tile_row as int, mr, rl),
                        mc,
                    ),
                    rect_visited(
                        self.visited@,
                        self.frame,
                        tile_offset(tile_row as int, mr, rl),
                        0,
                        tile_offset(tile_row + 1, mr, rl) - tile_offset(tile_row as int, mr, rl),
                        tile_offset(tile_col as int, mc, cl),
                    ),
            {
                proof {
                    lemma_tile_index(
                        tile_rows as int,
                        tile_cols as int,
                        tile_row as int,
                        tile_col as int,
                    );
                    lemma_tiles_cover(mr, rl, tile_row as int);
                    lemma_tiles_cover(mc, cl, tile_col as int);
                }
                let index: usize = (tile_row * tile_cols + tile_col) as usize;
                let tile_bytes: &[u8] = tiles[index];
                assert(tiles[index as int].len() <= data.len());
                let ghost outside = stop_at(*self, *layer);
                self.enter_tile(tile_row, tile_col);
                let ghost before = *self;
                match self.decode_tile_bytes(layer, tile_bytes) {
                    Ok(_) => {},
                    Err(e) => {
                        proof {
                            lemma_tile_done(
                                outside,
                                before,
                                tile_row as int,
                                tile_col as int,
                                tile_bytes@,
                                stop_at(*self, *layer),
                                Some(e),
                            );
                            lemma_tiles_end(
                                states.push(stop_at(*self, *layer)),
                                stop_at(start, *old(layer)),
                                all,
                                Some(e),
                            );
                        }
                        return Err(e);
                    },
                }
                proof {
                    lemma_tile_done(
                        outside,
                        before,
                        tile_row as int,
                        tile_col as int,
                        tile_bytes@,
                        stop_at(*self, *layer),
                        None,
                    );
                    states = states.push(stop_at(*self, *layer));
                }
                proof {
                    let top = tile_offset(tile_row as int, mr, rl);
                    let high = tile_offset(tile_row + 1, mr, rl) - top;
                    let left = tile_offset(tile_col as int, mc, cl);
                    let wide = tile_offset(tile_col + 1, mc, cl) - left;
                    lemma_rect_grows(
                        before.visited@,
                        self.visited@,
                        before.frame,
                        self.frame,
                        0,
                        0,
                        top,
                        mc,
                    );
                    lemma_rect_grows(
                        before.visited@,
                        self.visited@,
                        before.frame,
                        self.frame,
                        top,
                        0,
                        high,
                        left,
                    );
                    lemma_rect_join(
                        self.visited@,
                        self.frame,
                        top,
                        0,
                        high,
                        left + wide,
                        high,
                        left,
                    );
                }
            }
            proof {
                lemma_tiles_cover(mc, cl, 0);
                assert((tile_row + 1) * tile_cols == tile_row * tile_cols + tile_cols)
                    by (nonlinear_arith);
                let top = tile_offset(tile_row as int, mr, rl);
                let high = tile_offset(tile_row + 1, mr, rl) - top;
                lemma_rect_join(self.visited@, self.frame, 0, 0, top + high, mc, top, mc);
            }
        }
        proof {
            lemma_tiles_end(states, stop_at(start, *old(layer)), all, None);
        }
        Ok(())
    }
}

/// As many tiles have been decoded as there are steps between the states.
spec fn first_tiles_done<L: BlockLayer>(
    states: Seq<Stop<L>>,
    tiles: Seq<Seq<u8>>,
    cols_log2: nat,
) -> bool {
    &&& forall|k: int|
        #![trigger states[k]]
        0 <= k < states.len() ==> states[k].tiles.frame.tile_cols_log2 == cols_log2
    &&& forall|k: int|
        #![trigger states[k]]
        0 <= k < states.len() - 1 ==> tile_done(states[k], k, tiles[k], states[k + 1], None)
}

/// A tile has been entered and decoded.
#[verifier::spinoff_prover]
proof fn lemma_tile_done<L: BlockLayer>(
    outside: Stop<L>,
    entered: TileDecoder,
    row: int,
    col: int,
    bytes: Seq<u8>,
    after: Stop<L>,
    res: Option<TileError>,
)
    requires
        0 <= row,
        0 <= col < pow2(outside.tiles.frame.tile_cols_log2 as nat),
        tile_entered(outside.tiles, row, col, entered),
        tile_walked(stop_at(entered, outside.layer), bytes, after, res),
    ensures
        tile_done(
            outside,
            row * pow2(outside.tiles.frame.tile_cols_log2 as nat) + col,
            bytes,
            after,
            res,
        ),
{
    reveal(tile_done);
    let cols = pow2(outside.tiles.frame.tile_cols_log2 as nat) as int;
    lemma_fundamental_div_mod_converse(row * cols + col, cols, row, col);
}

/// The tiles end after the last one, or after one that fails.
#[verifier::spinoff_prover]
proof fn lemma_tiles_end<L: BlockLayer>(
    states: Seq<Stop<L>>,
    start: Stop<L>,
    tiles: Seq<Seq<u8>>,
    res: Option<TileError>,
)
    requires
        1 <= states.len() <= tiles.len() + 1,
        above_cleared(start.tiles, states[0].tiles),
        states[0].layer == start.layer,
        res is None ==> states.len() == tiles.len() + 1,
        res is Some ==> states.len() >= 2,
        forall|k: int|
            #![trigger states[k]]
            0 <= k < states.len() - 1 ==> tile_done(
                states[k],
                k,
                tiles[k],
                states[k + 1],
                if k == states.len() - 2 {
                    res
                } else {
                    None
                },
            ),
    ensures
        tiles_walked(start, tiles, states.last(), res),
{
    reveal(tiles_walked);
}

proof fn lemma_tile_count(rows: int, cols: int)
    requires
        1 <= rows <= 4096,
        1 <= cols <= 4096,
    ensures
        1 <= rows * cols <= 0x100_0000,
{
    assert(1 <= rows * cols <= 0x100_0000) by (nonlinear_arith)
        requires
            1 <= rows <= 4096,
            1 <= cols <= 4096,
    ;
}

proof fn lemma_tile_index(rows: int, cols: int, r: int, c: int)
    requires
        1 <= rows <= 4096,
        1 <= cols <= 4096,
        0 <= r < rows,
        0 <= c < cols,
    ensures
        0 <= r * cols,
        0 <= r * cols + c < rows * cols,
        r * cols + c <= 0x100_0000,
{
    lemma_tile_count(rows, cols);
    assert(0 <= r * cols && r * cols + c < rows * cols) by (nonlinear_arith)
        requires
            0 <= r < rows,
            0 <= c < cols,
    ;
}

proof fn lemma_offset_small(k: int, mis: int, log2: nat)
    requires
        0 <= k <= pow2(log2),
        log2 <= 12,
        0 <= mis <= 0x2000,
    ensures
        k <= 4096,
        0 <= k * ((mis + 7) / 8) <= 0x100_0000,
        (k * ((mis + 7) / 8)) / (pow2(log2) as int) * 8 <= 0x800_0000,
{
    lemma2_to64();
    let sbs = (mis + 7) / 8;
    if log2 < 12 {
        vstd::arithmetic::power2::lemma_pow2_strictly_increases(log2, 12);
    }
    lemma_pow2_pos(log2);
    let d = pow2(log2) as int;
    assert(0 <= k * sbs <= 4096 * 1024) by (nonlinear_arith)
        requires
            0 <= k <= 4096,
            0 <= sbs <= 1024,
    ;
    let t = k * sbs;
    assert(0 <= t / d <= t) by (nonlinear_arith)
        requires
            0 <= t,
            1 <= d,
    ;
}

} // verus!
