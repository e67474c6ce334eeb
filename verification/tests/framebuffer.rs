//! Planes of samples.

use vp9dec::framebuffer::Plane;

#[test]
fn get_set_roundtrip() {
    let mut p = Plane::new(4, 3);
    p.set(1, 2, 42);
    assert_eq!(p.get(1, 2), 42);
    assert_eq!(p.get(0, 0), 0);
}

#[test]
fn strip_translates_absolute_x_to_its_origin() {
    let mut s = Plane::new_strip(4, 2, 8);
    s.set(8, 0, 1);
    s.set(11, 1, 2);
    assert_eq!(s.get(8, 0), 1);
    assert_eq!(s.get(11, 1), 2);
    assert_eq!(s.as_slice()[0], 1);
    assert_eq!(s.as_slice()[4 + 3], 2);
    assert_eq!(s.get_clamped(0, 0), 1);
    assert_eq!(s.get_clamped(100, 1), 2);
}

#[test]
fn get_clamped_clips_to_bounds() {
    let mut p = Plane::new(4, 3);
    p.set(0, 0, 7);
    p.set(3, 2, 9);
    assert_eq!(p.get_clamped(-5, -5), 7);
    assert_eq!(p.get_clamped(100, 100), 9);
    assert_eq!(p.get_clamped(0, 0), 7);
}

#[test]
fn crop_extracts_top_left_region() {
    let mut p = Plane::new(4, 2);
    for y in 0..2 {
        for x in 0..4 {
            p.set(x, y, (y * 4 + x) as u16);
        }
    }
    let cropped = p.crop(2, 2);
    assert_eq!(cropped, vec![0, 1, 4, 5]);
}

#[test]
fn crop_u8_narrows_samples() {
    let mut p = Plane::new(4, 2);
    for y in 0..2 {
        for x in 0..4 {
            p.set(x, y, (y * 4 + x) as u16);
        }
    }
    let cropped = p.crop_u8(2, 2);
    assert_eq!(cropped, vec![0u8, 1, 4, 5]);
}

#[test]
fn both_crops_agree_on_samples_of_a_byte() {
    let mut p = Plane::new(7, 5);
    for y in 0..5 {
        for x in 0..7 {
            p.set(x, y, (255 - 7 * y - x) as u16);
        }
    }
    for (w, h) in [(7, 5), (3, 4), (1, 1), (0, 5), (7, 0)] {
        let wide = p.crop(w, h);
        let narrow = p.crop_u8(w, h);
        assert_eq!(narrow.len(), w * h);
        assert_eq!(narrow.iter().map(|&v| v as u16).collect::<Vec<u16>>(), wide);
    }
}
