//! Helpers that several stages share.

use vp9dec::common::{clip3, floor_div, get_uv_tx_size, power_of_two, push_bytes, push_le, round2};

#[test]
fn values_are_limited() {
    assert_eq!(clip3(0, 255, -1), 0);
    assert_eq!(clip3(0, 255, 256), 255);
    assert_eq!(clip3(0, 255, 17), 17);
}

#[test]
fn negative_values_round_towards_the_next_whole() {
    assert_eq!(round2(-3, 1), -1);
    assert_eq!(round2(-4, 3), 0);
    assert_eq!(round2(-5, 3), -1);
    assert_eq!(round2(i32::MAX, 31), 1);
    assert_eq!(round2(7, 0), 7);
}

#[test]
fn division_goes_down() {
    assert_eq!(floor_div(7, 2), 3);
    assert_eq!(floor_div(-7, 2), -4);
    assert_eq!(floor_div(-8, 2), -4);
    assert_eq!(power_of_two(0), 1);
    assert_eq!(power_of_two(14), 16384);
}

#[test]
fn little_endian_bytes() {
    let mut out = vec![9u8];
    push_le(&mut out, 0x0102_0304, 4);
    push_bytes(&mut out, &[5, 6]);
    assert_eq!(out, vec![9, 4, 3, 2, 1, 5, 6]);
}

#[test]
fn chroma_transform_sizes() {
    // Below 8x8 always the smallest.
    assert_eq!(get_uv_tx_size(0, 3, 1, 1), 0);
    // 64x64 with 32x32 transforms keeps them in 4:2:0.
    assert_eq!(get_uv_tx_size(12, 3, 1, 1), 3);
    // 8x8 becomes 4x4 in 4:2:0 and stays 8x8 in 4:4:4.
    assert_eq!(get_uv_tx_size(3, 1, 1, 1), 0);
    assert_eq!(get_uv_tx_size(3, 1, 0, 0), 1);
}
