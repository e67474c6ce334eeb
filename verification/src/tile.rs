//! Tiles: mode info, and the walk over tiles, superblocks, partitions and
//! blocks.

use vstd::prelude::*;
use crate::common::INTRA_FRAME;
use crate::framebuffer::{lemma_row_major, row_major};
use crate::prob_tables::{BLOCK_4X4, DC_PRED, REF_NONE, TX_4X4};

pub mod decoder;
pub mod laws;
pub mod partition;
pub mod walk;

pub use self::decoder::{
    BlockContexts, BlockLayer, BlockPos, Residual, SampleWrite, TileDecoder, TileFrame,
};
pub use self::partition::{get_tile_offset, split_tiles, TileError};

verus! {

/// What is known of one 8x8 unit of a frame.
#[derive(Debug, Clone, Copy, PartialEq, Eq)]
pub struct MiInfo {
    pub skip: bool,
    pub tx_size: u8,
    pub mi_size: u8,
    /// Prediction mode: an intra mode, or an inter mode for an inter block.
    pub y_mode: u8,
    /// Chroma prediction mode of an intra block.
    pub uv_mode: u8,
    /// Intra modes of the four 4x4 blocks of the unit.
    pub sub_modes: [u8; 4],
    pub segment_id: u8,
    /// The reference frames; the first is the intra type for an intra block.
    pub ref_frame: [u8; 2],
    /// Motion vector for each reference.
    pub mv: [[i32; 2]; 2],
    /// Motion vectors of the four 4x4 blocks, for each reference.
    pub sub_mvs: [[[i32; 2]; 4]; 2],
    pub interp_filter: u8,
}

/// The mode info before anything is decoded.
pub open spec fn default_mi_info(m: MiInfo) -> bool {
    &&& !m.skip
    &&& m.tx_size == TX_4X4
    &&& m.mi_size == BLOCK_4X4
    &&& m.y_mode == DC_PRED
    &&& m.uv_mode == DC_PRED
    &&& forall|i: int| 0 <= i < 4 ==> #[trigger] m.sub_modes[i] == DC_PRED
    &&& m.segment_id == 0
    &&& m.ref_frame[0] == INTRA_FRAME
    &&& m.ref_frame[1] == REF_NONE
    &&& forall|l: int, c: int| 0 <= l < 2 && 0 <= c < 2 ==> #[trigger] m.mv[l][c] == 0
    &&& forall|l: int, b: int, c: int|
        0 <= l < 2 && 0 <= b < 4 && 0 <= c < 2 ==> #[trigger] m.sub_mvs[l][b][c] == 0
    &&& m.interp_filter == 0
}

impl Default for MiInfo {
    fn default() -> (r: Self)
        ensures
            default_mi_info(r),
    {
        MiInfo {
            skip: false,
            tx_size: TX_4X4,
            mi_size: BLOCK_4X4,
            y_mode: DC_PRED,
            uv_mode: DC_PRED,
            sub_modes: [DC_PRED; 4],
            segment_id: 0,
            ref_frame: [INTRA_FRAME, REF_NONE],
            mv: [[0, 0]; 2],
            sub_mvs: [[[0, 0]; 4]; 2],
            interp_filter: 0,
        }
    }
}

/// The mode info of a whole frame, in 8x8 units, rounded up to whole
/// superblocks. A column strip covers only the columns from `col0` on; the
/// accessors take absolute columns either way.
#[derive(Debug)]
pub struct MiGrid {
    pub cols: usize,
    pub rows: usize,
    /// Absolute column of the first column (0 for a whole-frame grid).
    pub col0: u32,
    /// The units, row by row.
    pub data: Vec<MiInfo>,
}

impl MiGrid {
    /// The grid holds one entry for each unit.
    pub open spec fn wf(&self) -> bool {
        self.data.len() == self.cols * self.rows
    }

    /// Whether the unit lies in the grid.
    pub open spec fn contains(&self, row: int, col: int) -> bool {
        0 <= row < self.rows && self.col0 <= col < self.col0 + self.cols
    }

    /// The entry of a unit.
    pub open spec fn at(&self, row: int, col: int) -> MiInfo {
        self.data@[row_major(self.cols as int, col - self.col0, row)]
    }

    /// A grid of default entries for a whole frame.
    pub fn new(cols: usize, rows: usize) -> (r: Self)
        requires
            cols * rows <= usize::MAX,
        ensures
            r.wf(),
            r.cols == cols,
            r.rows == rows,
            r.col0 == 0,
            forall|i: int| 0 <= i < r.data.len() ==> default_mi_info(#[trigger] r.data[i]),
    {
        Self::new_strip(cols, rows, 0)
    }

    /// A grid of default entries for the columns from `col0` on.
    pub fn new_strip(cols: usize, rows: usize, col0: u32) -> (r: Self)
        requires
            cols * rows <= usize::MAX,
        ensures
            r.wf(),
            r.cols == cols,
            r.rows == rows,
            r.col0 == col0,
            forall|i: int| 0 <= i < r.data.len() ==> default_mi_info(#[trigger] r.data[i]),
    {
        let info: MiInfo = MiInfo::default();
        let data: Vec<MiInfo> = vec![info; cols * rows];
        MiGrid { cols, rows, col0, data }
    }

    pub fn cols(&self) -> (n: usize)
        ensures
            n == self.cols,
    {
        self.cols
    }

    pub fn rows(&self) -> (n: usize)
        ensures
            n == self.rows,
    {
        self.rows
    }

    /// The entry of a unit.
    pub fn get(&self, row: u32, col: u32) -> (m: &MiInfo)
        requires
            self.wf(),
            self.contains(row as int, col as int),
        ensures
            *m == self.at(row as int, col as int),
    {
        proof {
            lemma_row_major(self.cols as int, self.rows as int, col - self.col0, row as int);
        }
        &self.data[row as usize * self.cols + (col - self.col0) as usize]
    }

    /// Replaces the entry of a unit, and no other.
    pub fn set(&mut self, row: u32, col: u32, info: MiInfo)
        requires
            old(self).wf(),
            old(self).contains(row as int, col as int),
        ensures
            final(self).wf(),
            final(self).cols == old(self).cols,
            final(self).rows == old(self).rows,
            final(self).col0 == old(self).col0,
            final(self).at(row as int, col as int) == info,
            forall|r2: int, c2: int|
                old(self).contains(r2, c2) && (r2 != row || c2 != col) ==> #[trigger] final(self).at(
                    r2,
                    c2,
                ) == old(self).at(r2, c2),
    {
        proof {
            lemma_row_major(self.cols as int, self.rows as int, col - self.col0, row as int);
            assert forall|r2: int, c2: int|
                self.contains(r2, c2) && (r2 != row || c2 != col) implies #[trigger] self.data@.update(
                row_major(self.cols as int, col - self.col0, row as int),
                info,
            )[row_major(self.cols as int, c2 - self.col0, r2)] == self.data@[row_major(
                self.cols as int,
                c2 - self.col0,
                r2,
            )] by {
                lemma_row_major(self.cols as int, self.rows as int, c2 - self.col0, r2);
            }
        }
        let i: usize = row as usize * self.cols + (col - self.col0) as usize;
        self.data[i] = info;
    }
}

} // verus!
