//! Intra prediction.

use vp9dec::framebuffer::Plane;
use vp9dec::predict::predict_intra;
use vp9dec::prob_tables::{
    D117_PRED, D135_PRED, D153_PRED, D207_PRED, D45_PRED, D63_PRED, DC_PRED, H_PRED, TM_PRED,
    V_PRED,
};

const MODES: [u8; 10] = [
    DC_PRED, V_PRED, H_PRED, D45_PRED, D135_PRED, D117_PRED, D153_PRED, D207_PRED, D63_PRED, TM_PRED,
];

/// A plane whose block at (4, 4) has the row above 10, 20, .. and the column to
/// the left 15, 25, .., with the corner 5.
fn plane() -> Plane {
    let mut p = Plane::new(16, 16);
    p.set(3, 3, 5);
    for i in 0..12 {
        p.set(4 + i, 3, 10 * (i as u16 + 1));
    }
    for i in 0..12 {
        p.set(3, 4 + i, 10 * i as u16 + 15);
    }
    p
}

fn predicted(mode: u8, have_left: bool, have_above: bool, not_on_right: bool) -> Vec<Vec<u16>> {
    let mut p = plane();
    predict_intra(&mut p, 4, 4, have_left, have_above, not_on_right, 0, mode, 15, 15, 8);
    (0..4).map(|i| (0..4).map(|j| p.get(4 + j, 4 + i)).collect()).collect()
}

#[test]
fn vertical_and_horizontal_modes_copy() {
    assert_eq!(predicted(V_PRED, true, true, true), vec![vec![10, 20, 30, 40]; 4]);
    assert_eq!(
        predicted(H_PRED, true, true, true),
        vec![vec![15; 4], vec![25; 4], vec![35; 4], vec![45; 4]]
    );
}

#[test]
fn the_mean_uses_what_is_there() {
    // (100 + 120 + 4) / 8
    assert_eq!(predicted(DC_PRED, true, true, true), vec![vec![28; 4]; 4]);
    assert_eq!(predicted(DC_PRED, true, false, true), vec![vec![30; 4]; 4]);
    assert_eq!(predicted(DC_PRED, false, true, true), vec![vec![25; 4]; 4]);
    assert_eq!(predicted(DC_PRED, false, false, true), vec![vec![128; 4]; 4]);
}

#[test]
fn missing_neighbours_are_near_mid_range() {
    assert_eq!(predicted(V_PRED, true, false, true), vec![vec![127; 4]; 4]);
    assert_eq!(predicted(H_PRED, false, true, true), vec![vec![129; 4]; 4]);
}

#[test]
fn true_motion_adds_gradients_and_limits() {
    let rows = predicted(TM_PRED, true, true, true);
    assert_eq!(rows[0], vec![20, 30, 40, 50]);
    assert_eq!(rows[3], vec![50, 60, 70, 80]);
    let mut p = plane();
    for i in 0..4 {
        p.set(4 + i, 3, 250);
    }
    predict_intra(&mut p, 4, 4, true, true, true, 0, TM_PRED, 15, 15, 8);
    assert_eq!(p.get(4, 4), 255);
}

#[test]
fn down_left_modes() {
    let d45 = predicted(D45_PRED, true, true, true);
    assert_eq!(d45[0], vec![20, 30, 40, 50]);
    assert_eq!(d45[3], vec![50, 60, 70, 80]);
    let d63 = predicted(D63_PRED, true, true, true);
    assert_eq!(d63[0], vec![15, 25, 35, 45]);
    assert_eq!(d63[1], vec![20, 30, 40, 50]);
    assert_eq!(d63[2], vec![25, 35, 45, 55]);
    let d207 = predicted(D207_PRED, true, true, true);
    assert_eq!(d207[0], vec![20, 25, 30, 35]);
    assert_eq!(d207[2], vec![40, 43, 45, 45]);
    assert_eq!(d207[3], vec![45, 45, 45, 45]);
}

#[test]
fn down_right_modes() {
    let d135 = predicted(D135_PRED, true, true, true);
    // (15 + 2 * 5 + 10 + 2) / 4
    assert_eq!(d135[0], vec![9, 11, 20, 30]);
    assert_eq!(d135[1][0], 15);
    assert_eq!(d135[1][1], 9);
    let d117 = predicted(D117_PRED, true, true, true);
    assert_eq!(d117[0], vec![8, 15, 25, 35]);
    assert_eq!(d117[1], vec![9, 11, 20, 30]);
    assert_eq!(d117[2][1], 8);
    let d153 = predicted(D153_PRED, true, true, true);
    assert_eq!(d153[0], vec![10, 9, 11, 20]);
    assert_eq!(d153[1][0], 20);
    assert_eq!(d153[1][2], 10);
}

#[test]
fn only_small_blocks_look_above_and_to_the_right() {
    // Without samples to the right the last one above is repeated.
    let d45 = predicted(D45_PRED, true, true, false);
    assert_eq!(d45[0], vec![20, 30, 38, 40]);
    assert_eq!(d45[3], vec![40, 40, 40, 40]);
    // An 8x8 block repeats it in any case.
    let mut p = Plane::new(32, 32);
    for i in 0..16 {
        p.set(8 + i, 7, if i < 8 { 50 } else { 200 });
    }
    predict_intra(&mut p, 8, 8, true, true, true, 1, D45_PRED, 31, 31, 8);
    for i in 0..8 {
        for j in 0..8 {
            assert_eq!(p.get(8 + j, 8 + i), 50);
        }
    }
}

#[test]
fn samples_beyond_the_limits_are_not_read() {
    let mut p = plane();
    predict_intra(&mut p, 4, 4, true, true, true, 0, V_PRED, 5, 15, 8);
    assert_eq!((0..4).map(|j| p.get(4 + j, 4)).collect::<Vec<u16>>(), vec![10, 20, 20, 20]);
    let mut p = plane();
    predict_intra(&mut p, 4, 4, true, true, true, 0, H_PRED, 15, 6, 8);
    assert_eq!((0..4).map(|i| p.get(4, 4 + i)).collect::<Vec<u16>>(), vec![15, 25, 35, 35]);
}

#[test]
fn constant_neighbours_predict_a_constant() {
    for tx_size in 0..4u8 {
        let n = 4usize << tx_size;
        for mode in MODES {
            let mut p = Plane::new(3 * n, 3 * n);
            for y in 0..3 * n {
                for x in 0..3 * n {
                    p.set(x, y, 77);
                }
            }
            for y in n..2 * n {
                for x in n..2 * n {
                    p.set(x, y, 0);
                }
            }
            predict_intra(&mut p, n, n, true, true, true, tx_size, mode, 3 * n - 1, 3 * n - 1, 8);
            for y in 0..3 * n {
                for x in 0..3 * n {
                    assert_eq!(p.get(x, y), 77, "mode {mode} at ({x}, {y})");
                }
            }
        }
    }
}

#[test]
fn higher_bit_depths_have_a_higher_middle() {
    let mut p = Plane::new(8, 8);
    predict_intra(&mut p, 0, 0, false, false, false, 0, DC_PRED, 7, 7, 10);
    assert_eq!(p.get(0, 0), 512);
    predict_intra(&mut p, 0, 0, false, false, false, 0, V_PRED, 7, 7, 12);
    assert_eq!(p.get(3, 3), 2047);
}
