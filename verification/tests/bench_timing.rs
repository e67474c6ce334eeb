//! Time per stage.

use vp9dec::bench_timing::{reset, snapshot, stage_index, Stage, StageCounters, StageTimer, STAGE_COUNT};

#[test]
fn measurements_add_up_per_stage() {
    let mut counters = StageCounters::new();
    assert_eq!(snapshot(&counters), [0; STAGE_COUNT]);
    let outer = StageTimer::start(Stage::Total, 100);
    let inner = StageTimer::start(Stage::TileDecode, 120);
    inner.stop(150, &mut counters);
    let again = StageTimer::start(Stage::TileDecode, 160);
    again.stop(165, &mut counters);
    outer.stop(200, &mut counters);
    let mut expected = [0; STAGE_COUNT];
    expected[stage_index(Stage::Total)] = 100;
    expected[stage_index(Stage::TileDecode)] = 35;
    assert_eq!(snapshot(&counters), expected);
    reset(&mut counters);
    assert_eq!(snapshot(&counters), [0; STAGE_COUNT]);
}

#[test]
fn stages_have_their_own_counters() {
    let stages = [
        Stage::Total,
        Stage::HeaderParse,
        Stage::CompressedHeader,
        Stage::TileDecode,
        Stage::LoopFilter,
        Stage::DpbOutput,
        Stage::TokenDequantTransform,
        Stage::InterPredict,
        Stage::IntraPredict,
        Stage::InverseTransform,
    ];
    for (i, &stage) in stages.iter().enumerate() {
        assert_eq!(stage_index(stage), i);
    }
}
