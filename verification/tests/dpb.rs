//! Reference slots.

use std::sync::Arc;
use vp9dec::dpb::{Dpb, RefFrameData};
use vp9dec::framebuffer::Plane;

fn frame(width: u32) -> Arc<RefFrameData> {
    Arc::new(RefFrameData {
        width,
        height: 8,
        subsampling_x: 1,
        subsampling_y: 1,
        bit_depth: 8,
        y: Plane::new(width as usize, 8),
        u: Plane::new((width as usize + 1) / 2, 4),
        v: Plane::new((width as usize + 1) / 2, 4),
    })
}

fn widths(dpb: &Dpb) -> Vec<Option<u32>> {
    (0..8u8).map(|i| dpb.get(i).map(|d| d.width)).collect()
}

#[test]
fn slots_start_empty() {
    let dpb = Dpb::new();
    assert_eq!(widths(&dpb), vec![None; 8]);
    assert!(dpb.get_arc(3).is_none());
}

#[test]
fn an_update_fills_the_flagged_slots_only() {
    let mut dpb = Dpb::default();
    dpb.update(0b1000_0101, &frame(8));
    let mut expected = vec![None; 8];
    expected[0] = Some(8);
    expected[2] = Some(8);
    expected[7] = Some(8);
    assert_eq!(widths(&dpb), expected);
    dpb.update(0b0000_0110, &frame(16));
    expected[1] = Some(16);
    expected[2] = Some(16);
    assert_eq!(widths(&dpb), expected);
    dpb.update(0, &frame(24));
    assert_eq!(widths(&dpb), expected);
    dpb.update(0xff, &frame(32));
    assert_eq!(widths(&dpb), vec![Some(32); 8]);
}

#[test]
fn slots_share_the_frame() {
    let mut dpb = Dpb::new();
    let data = frame(8);
    dpb.update(0b11, &data);
    let a = dpb.get_arc(0).expect("a frame");
    let b = dpb.get_arc(1).expect("a frame");
    assert!(Arc::ptr_eq(&a, &b) && Arc::ptr_eq(&a, &data));
    let copy = dpb.clone();
    dpb.update(0b1, &frame(40));
    assert_eq!(copy.get(0).map(|d| d.width), Some(8));
    assert_eq!(dpb.get(0).map(|d| d.width), Some(40));
}
