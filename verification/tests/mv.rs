//! Motion vectors.

use vp9dec::mv::{
    add_mv_ref_list, clamp_mv_col, clamp_mv_row, scale_mv, use_mv_hp, ZERO_MV,
};

#[test]
fn clamp_mv_row_matches_spec_formula() {
    assert_eq!(clamp_mv_row(1000, 128, 0, 1, 8), 448 + 128);
    assert_eq!(clamp_mv_row(-1000, 128, 0, 1, 8), 0 - 128);
    assert_eq!(clamp_mv_row(10, 128, 0, 1, 8), 10);
}

#[test]
fn add_mv_ref_list_deduplicates_and_caps_at_two() {
    let mut list = [ZERO_MV; 2];
    let mut count = 0usize;
    add_mv_ref_list(&mut list, &mut count, [1, 2]);
    assert_eq!(count, 1);
    add_mv_ref_list(&mut list, &mut count, [1, 2]);
    assert_eq!(count, 1);
    add_mv_ref_list(&mut list, &mut count, [3, 4]);
    assert_eq!(count, 2);
    assert_eq!(list, [[1, 2], [3, 4]]);
    add_mv_ref_list(&mut list, &mut count, [5, 6]);
    assert_eq!(count, 2);
    assert_eq!(list, [[1, 2], [3, 4]]);
}

#[test]
fn scale_mv_flips_sign_on_differing_bias() {
    let sign_bias = [false, false, true, false];
    assert_eq!(scale_mv([4, -2], 1, 2, &sign_bias), [-4, 2]);
    assert_eq!(scale_mv([4, -2], 1, 3, &sign_bias), [4, -2]);
}

#[test]
fn use_mv_hp_threshold() {
    assert!(use_mv_hp([63, 0]));
    assert!(!use_mv_hp([64, 0]));
}

#[test]
fn columns_are_limited_like_rows() {
    assert_eq!(clamp_mv_col(1000, 128, 2, 1, 8), 5 * 64 + 128);
    assert_eq!(clamp_mv_col(-1000, 128, 2, 1, 8), -2 * 64 - 128);
    assert_eq!(clamp_mv_col(-200, 128, 2, 1, 8), -200);
}

#[test]
fn negating_twice_gives_the_vector_back() {
    let bias = [false, true, false, false];
    let once = scale_mv([7, -9], 1, 2, &bias);
    assert_eq!(once, [-7, 9]);
    assert_eq!(scale_mv(once, 2, 1, &bias), [7, -9]);
}
