//! Accounting of the time spent per decoding stage.
//!
//! The clock is read by the caller: a [`StageTimer`] is started with one
//! reading and stopped with a later one, and the difference is added to the
//! counter of its stage.

use vstd::prelude::*;

verus! {

/// A stage of decoding.
#[derive(Clone, Copy, PartialEq, Eq, Debug, Structural)]
pub enum Stage {
    /// The whole of decoding a frame; the other coarse stages lie inside it.
    Total,
    HeaderParse,
    CompressedHeader,
    TileDecode,
    LoopFilter,
    DpbOutput,
    /// Inside `TileDecode`: tokens, dequantization, inverse transform and
    /// reconstruction.
    TokenDequantTransform,
    /// Inside `TileDecode`: motion compensation.
    InterPredict,
    /// Inside `TileDecode`: intra prediction.
    IntraPredict,
    /// Inside `TokenDequantTransform`: the inverse transform alone.
    InverseTransform,
}

/// Number of stages.
pub const STAGE_COUNT: usize = 10;

/// The counter that belongs to a stage.
pub open spec fn spec_stage_index(stage: Stage) -> int {
    match stage {
        Stage::Total => 0,
        Stage::HeaderParse => 1,
        Stage::CompressedHeader => 2,
        Stage::TileDecode => 3,
        Stage::LoopFilter => 4,
        Stage::DpbOutput => 5,
        Stage::TokenDequantTransform => 6,
        Stage::InterPredict => 7,
        Stage::IntraPredict => 8,
        Stage::InverseTransform => 9,
    }
}

/// The counter that belongs to a stage.
pub fn stage_index(stage: Stage) -> (i: usize)
    ensures
        i == spec_stage_index(stage),
        i < STAGE_COUNT,
{
    match stage {
        Stage::Total => 0,
        Stage::HeaderParse => 1,
        Stage::CompressedHeader => 2,
        Stage::TileDecode => 3,
        Stage::LoopFilter => 4,
        Stage::DpbOutput => 5,
        Stage::TokenDequantTransform => 6,
        Stage::InterPredict => 7,
        Stage::IntraPredict => 8,
        Stage::InverseTransform => 9,
    }
}

/// Nanoseconds spent per stage.
#[derive(Debug)]
pub struct StageCounters {
    pub nanos: [u64; 10],
}

impl StageCounters {
    /// All counters at zero.
    pub fn new() -> (r: Self)
        ensures
            forall|i: int| 0 <= i < STAGE_COUNT ==> r.nanos[i] == 0,
    {
        StageCounters { nanos: [0; 10] }
    }

    /// Adds to the counter of a stage.
    pub fn add(&mut self, stage: Stage, nanos: u64)
        requires
            old(self).nanos[spec_stage_index(stage)] + nanos <= u64::MAX,
        ensures
            final(self).nanos@ == old(self).nanos@.update(
                spec_stage_index(stage),
                (old(self).nanos[spec_stage_index(stage)] + nanos) as u64,
            ),
    {
        let i: usize = stage_index(stage);
        self.nanos[i] = self.nanos[i] + nanos;
    }
}

/// Sets all counters to zero.
pub fn reset(counters: &mut StageCounters)
    ensures
        forall|i: int| 0 <= i < STAGE_COUNT ==> final(counters).nanos[i] == 0,
{
    counters.nanos = [0; 10];
}

/// The nanoseconds per stage.
pub fn snapshot(counters: &StageCounters) -> (r: [u64; 10])
    ensures
        r == counters.nanos,
{
    counters.nanos
}

/// A running measurement of one stage.
#[derive(Debug)]
pub struct StageTimer {
    pub stage: Stage,
    /// Clock reading at the start, in nanoseconds.
    pub start: u64,
}

impl StageTimer {
    /// Starts measuring a stage at the clock reading `now`.
    pub fn start(stage: Stage, now: u64) -> (r: Self)
        ensures
            r.stage == stage,
            r.start == now,
    {
        StageTimer { stage, start: now }
    }

    /// Ends the measurement at the clock reading `now` and accounts for it.
    pub fn stop(self, now: u64, counters: &mut StageCounters)
        requires
            self.start <= now,
            old(counters).nanos[spec_stage_index(self.stage)] + (now - self.start) <= u64::MAX,
        ensures
            final(counters).nanos@ == old(counters).nanos@.update(
                spec_stage_index(self.stage),
                (old(counters).nanos[spec_stage_index(self.stage)] + (now - self.start)) as u64,
            ),
    {
        counters.add(self.stage, now - self.start);
    }
}

} // verus!
