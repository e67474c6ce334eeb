//! A block layer that plays back prepared blocks.

use vstd::prelude::*;
use crate::bool_coder::{BoolDecoder, BoolState};
use crate::tile::decoder::{
    block_refusal, block_stored, BlockContexts, BlockLayer, BlockPos, Residual, SampleWrite,
    TileFrame,
};
use crate::tile::partition::TileError;
use crate::tile::walk::{block_units, block_walked, Outcome, Walk};
use crate::tile::MiInfo;

verus! {

/// A prepared block: its mode info, and what reconstructing it gives.
#[derive(Debug)]
pub struct ScriptedBlock {
    pub info: MiInfo,
    pub residual: Residual,
}

/// Hands out the blocks of a script in order, whatever the data holds. It reads
/// nothing and leaves the contexts alone.
#[derive(Debug)]
pub struct ScriptLayer {
    pub blocks: Vec<ScriptedBlock>,
    /// The index of the block that is handed out next.
    pub next: usize,
}

/// The mode info of the next block; past the end of the script there is none.
pub open spec fn scripted_info(s: ScriptLayer) -> Result<MiInfo, TileError> {
    if s.next < s.blocks@.len() {
        Ok(s.blocks@[s.next as int].info)
    } else {
        Err(TileError::InvalidPartition)
    }
}

/// The number of coefficients of the next block.
pub open spec fn scripted_eob_total(s: ScriptLayer) -> u32 {
    if s.next < s.blocks@.len() {
        s.blocks@[s.next as int].residual.eob_total
    } else {
        0
    }
}

/// The samples of the next block.
pub open spec fn scripted_samples(s: ScriptLayer) -> Seq<SampleWrite> {
    if s.next < s.blocks@.len() {
        s.blocks@[s.next as int].residual.samples@
    } else {
        Seq::empty()
    }
}

/// The script once its next block has been handed out.
pub open spec fn script_advanced(before: ScriptLayer, after: ScriptLayer) -> bool {
    &&& after.blocks == before.blocks
    &&& after.next == if before.next < before.blocks@.len() {
        before.next + 1
    } else {
        before.next as int
    }
}

impl ScriptLayer {
    /// A layer at the start of a script.
    pub fn new(blocks: Vec<ScriptedBlock>) -> (s: Self)
        ensures
            s.blocks == blocks,
            s.next == 0,
    {
        ScriptLayer { blocks, next: 0 }
    }

    /// The mode info of the next block.
    pub fn next_info(&self) -> (info: Result<MiInfo, TileError>)
        ensures
            info == scripted_info(*self),
    {
        if self.next < self.blocks.len() {
            Ok(self.blocks[self.next].info)
        } else {
            Err(TileError::InvalidPartition)
        }
    }
}

impl BlockLayer for ScriptLayer {
    open spec fn intra_info_says(
        before: Self,
        frame: TileFrame,
        contexts: BlockContexts,
        data: Seq<u8>,
        st: BoolState,
        block: BlockPos,
        after: Self,
        contexts_after: BlockContexts,
        st_after: BoolState,
        reply: Result<MiInfo, TileError>,
    ) -> bool {
        &&& after == before
        &&& contexts_after == contexts
        &&& st_after == st
        &&& reply == scripted_info(before)
    }

    open spec fn inter_info_says(
        before: Self,
        frame: TileFrame,
        contexts: BlockContexts,
        data: Seq<u8>,
        st: BoolState,
        block: BlockPos,
        after: Self,
        contexts_after: BlockContexts,
        st_after: BoolState,
        reply: Result<MiInfo, TileError>,
    ) -> bool {
        &&& after == before
        &&& contexts_after == contexts
        &&& st_after == st
        &&& reply == scripted_info(before)
    }

    open spec fn residual_says(
        before: Self,
        frame: TileFrame,
        contexts: BlockContexts,
        data: Seq<u8>,
        st: BoolState,
        block: BlockPos,
        info: MiInfo,
        is_inter: bool,
        after: Self,
        contexts_after: BlockContexts,
        st_after: BoolState,
        residual: Residual,
    ) -> bool {
        &&& script_advanced(before, after)
        &&& contexts_after == contexts
        &&& st_after == st
        &&& residual.eob_total == scripted_eob_total(before)
        &&& residual.samples@ == scripted_samples(before)
    }

    fn intra_frame_mode_info(
        &mut self,
        frame: &TileFrame,
        contexts: &mut BlockContexts,
        r: &mut BoolDecoder,
        block: BlockPos,
    ) -> (reply: Result<MiInfo, TileError>) {
        self.next_info()
    }

    fn inter_frame_mode_info(
        &mut self,
        frame: &TileFrame,
        contexts: &mut BlockContexts,
        r: &mut BoolDecoder,
        block: BlockPos,
    ) -> (reply: Result<MiInfo, TileError>) {
        self.next_info()
    }

    fn residual(
        &mut self,
        frame: &TileFrame,
        contexts: &mut BlockContexts,
        r: &mut BoolDecoder,
        block: BlockPos,
        info: &MiInfo,
        is_inter: bool,
    ) -> (residual: Residual) {
        let mut samples: Vec<SampleWrite> = Vec::new();
        if self.next >= self.blocks.len() {
            assert(samples@ =~= scripted_samples(*self));
            return Residual { eob_total: 0, samples };
        }
        let eob_total: u32 = self.blocks[self.next].residual.eob_total;
        let n: usize = self.blocks[self.next].residual.samples.len();
        let mut i: usize = 0;
        while i < n
            invariant
                self.next < self.blocks@.len(),
                n == scripted_samples(*self).len(),
                i <= n,
                samples@ == scripted_samples(*self).take(i as int),
            decreases n - i,
        {
            samples.push(self.blocks[self.next].residual.samples[i]);
            i = i + 1;
            assert(samples@ =~= scripted_samples(*self).take(i as int));
        }
        assert(samples@ =~= scripted_samples(*self));
        self.next = self.next + 1;
        Residual { eob_total, samples }
    }
}

/// A block of a scripted frame is stored as the script has it, nothing is read
/// for it, and the script moves on by one. Past the end of the script, or where
/// the block is refused, everything stays as it was.
pub proof fn lemma_script_is_played(
    before: Walk<ScriptLayer>,
    row: int,
    col: int,
    size: u8,
    after: Walk<ScriptLayer>,
    res: Outcome,
)
    requires
        block_walked(before, row, col, size, after, res),
    ensures
        after.data == before.data,
        after.st == before.st,
        after.tiles.contexts == before.tiles.contexts,
        match scripted_info(before.layer) {
            Err(e) => {
                &&& res == Some(e)
                &&& after.layer == before.layer
                &&& after.tiles.frame == before.tiles.frame
                &&& after.tiles.visited == before.tiles.visited
            },
            Ok(info) => {
                let f = before.tiles.frame;
                &&& res == block_refusal(f, size, info)
                &&& if res is Some {
                    &&& after.layer == before.layer
                    &&& after.tiles.frame == f
                    &&& after.tiles.visited == before.tiles.visited
                } else {
                    &&& script_advanced(before.layer, after.layer)
                    &&& block_stored(
                        f,
                        after.tiles.frame,
                        row,
                        col,
                        size,
                        info,
                        before.layer.blocks@[before.layer.next as int].residual,
                    )
                    &&& after.tiles.visited@ == before.tiles.visited@.union(
                        block_units(row, col, size),
                    )
                }
            },
        },
{
    reveal(block_walked);
}

} // verus!
