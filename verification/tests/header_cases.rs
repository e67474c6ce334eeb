//! More cases of uncompressed headers.

use vp9dec::header::{
    compute_image_size, parse_uncompressed_header, FrameHeader, HeaderError, NewFrameHeader,
    PersistentState, CS_BT_601, CS_RGB, SWITCHABLE,
};

struct Bits {
    bits: Vec<u8>,
}

impl Bits {
    fn new() -> Self {
        Bits { bits: Vec::new() }
    }

    fn put(&mut self, value: u32, n: u32) -> &mut Self {
        for i in (0..n).rev() {
            self.bits.push(((value >> i) & 1) as u8);
        }
        self
    }

    fn bytes(&self) -> Vec<u8> {
        let mut out = vec![0u8; (self.bits.len() + 7) / 8];
        for (i, &b) in self.bits.iter().enumerate() {
            out[i / 8] |= b << (7 - i % 8);
        }
        out
    }
}

/// Marker, profile and the flags of a shown key frame.
fn key_start(profile: u32) -> Bits {
    let mut b = Bits::new();
    b.put(2, 2).put(profile & 1, 1).put(profile >> 1, 1);
    if profile == 3 {
        b.put(0, 1);
    }
    b.put(0, 1).put(0, 1).put(1, 1).put(0, 1).put(0x49_8342, 24);
    b
}

/// What follows the color configuration of a key frame.
fn key_end(b: &mut Bits, width: u32, height: u32) {
    b.put(width - 1, 16).put(height - 1, 16).put(0, 1);
    b.put(1, 1).put(0, 1).put(0, 2);
    b.put(0, 6 + 3 + 1);
    b.put(5, 8).put(0, 3);
    b.put(0, 1);
}

fn new_frame(b: &Bits) -> (NewFrameHeader, usize) {
    match parse_uncompressed_header(&b.bytes(), &PersistentState::new()) {
        Ok((FrameHeader::New(h), n)) => (h, n),
        other => panic!("unexpected {other:?}"),
    }
}

#[test]
fn rgb_needs_an_odd_profile() {
    for profile in [0u32, 2] {
        let mut b = key_start(profile);
        if profile == 2 {
            b.put(0, 1);
        }
        b.put(CS_RGB as u32, 3);
        assert_eq!(
            parse_uncompressed_header(&b.bytes(), &PersistentState::new()),
            Err(HeaderError::InvalidColorConfigForProfile)
        );
    }
    let mut b = key_start(1);
    b.put(CS_RGB as u32, 3).put(0, 1);
    key_end(&mut b, 8, 8);
    b.put(0, 1).put(7, 16);
    let (h, _) = new_frame(&b);
    let c = h.color_config.expect("a key frame");
    assert_eq!((c.bit_depth, c.subsampling_x, c.subsampling_y, c.color_range), (8, 0, 0, true));
    assert_eq!(h.header_size_in_bytes, 7);
}

#[test]
fn bit_depths_and_subsamplings() {
    // Profile 3, 12 bits, 4:4:0.
    let mut b = key_start(3);
    b.put(1, 1).put(2, 3).put(1, 1).put(0, 1).put(1, 1).put(0, 1);
    key_end(&mut b, 8, 8);
    b.put(0, 1).put(1, 16);
    let (h, _) = new_frame(&b);
    assert_eq!(h.profile, 3);
    let c = h.color_config.expect("a key frame");
    assert_eq!((c.bit_depth, c.subsampling_x, c.subsampling_y), (12, 0, 1));
    assert!(c.color_range);
    // Profile 2, 10 bits, always 4:2:0.
    let mut b = key_start(2);
    b.put(0, 1).put(0, 3).put(0, 1);
    key_end(&mut b, 8, 8);
    b.put(0, 1).put(1, 16);
    let c = new_frame(&b).0.color_config.expect("a key frame");
    assert_eq!((c.bit_depth, c.subsampling_x, c.subsampling_y), (10, 1, 1));
}

#[test]
fn tile_columns_are_limited_by_the_width() {
    // 4096 samples are 64 superblocks: up to 16 tile columns.
    let mut b = key_start(0);
    b.put(0, 3).put(0, 1);
    key_end(&mut b, 4096, 8);
    b.put(0b1111, 4).put(0b11, 2).put(1, 16);
    let (h, _) = new_frame(&b);
    assert_eq!((h.tile_cols_log2, h.tile_rows_log2), (4, 2));
    // 4160 samples need at least two.
    let mut b = key_start(0);
    b.put(0, 3).put(0, 1);
    key_end(&mut b, 4160, 8);
    b.put(0, 1).put(0b10, 2).put(1, 16);
    let (h, n) = new_frame(&b);
    assert_eq!((h.tile_cols_log2, h.tile_rows_log2), (1, 1));
    assert_eq!(n, b.bytes().len());
}

#[test]
fn an_intra_only_frame_of_profile_zero_has_a_fixed_format() {
    let mut b = Bits::new();
    b.put(2, 2).put(0, 2).put(0, 1).put(1, 1).put(0, 1).put(0, 1);
    b.put(1, 1).put(2, 2).put(0x49_8342, 24);
    b.put(0b0101_0000, 8).put(15, 16).put(7, 16).put(1, 1).put(31, 16).put(23, 16);
    b.put(1, 1).put(1, 1).put(3, 2);
    b.put(0, 10).put(5, 8).put(0, 3).put(0, 1).put(0, 1).put(9, 16);
    let (h, _) = new_frame(&b);
    assert!(h.intra_only && h.frame_is_intra && !h.show_frame);
    assert_eq!(h.reset_frame_context, 2);
    assert_eq!(h.refresh_frame_flags, 0b0101_0000);
    assert_eq!((h.width, h.height), (16, 8));
    assert_eq!((h.render_width, h.render_height), (32, 24));
    let c = h.color_config.expect("an intra frame");
    assert_eq!((c.bit_depth, c.color_space, c.subsampling_x, c.subsampling_y), (8, CS_BT_601, 1, 1));
    assert_eq!(h.frame_context_idx, 3);
    assert_eq!(h.effective_frame_context_idx(), 0);
    assert_eq!(h.interpolation_filter, SWITCHABLE);
    assert!(h.refresh_frame_context && h.frame_parallel_decoding_mode);
}

#[test]
fn quantizer_deltas_have_a_sign() {
    let mut b = key_start(0);
    b.put(0, 3).put(0, 1);
    b.put(7, 16).put(7, 16).put(0, 1).put(0, 1).put(0, 1).put(0, 2);
    b.put(0, 10);
    b.put(0, 8).put(1, 1).put(5, 4).put(1, 1).put(0, 1).put(1, 1).put(15, 4).put(0, 1);
    b.put(0, 1).put(0, 1).put(1, 16);
    let (h, _) = new_frame(&b);
    let q = h.quantization;
    assert_eq!((q.base_q_idx, q.delta_q_y_dc, q.delta_q_uv_dc, q.delta_q_uv_ac), (0, -5, 0, 15));
    assert!(!q.lossless);
}

#[test]
fn a_header_without_data_is_refused() {
    assert_eq!(
        parse_uncompressed_header(&[], &PersistentState::new()),
        Err(HeaderError::InvalidFrameMarker)
    );
}

#[test]
fn frame_sizes_in_units() {
    let s = compute_image_size(65, 8);
    assert_eq!((s.mi_cols, s.mi_rows, s.sb64_cols, s.sb64_rows), (9, 1, 2, 1));
    let s = compute_image_size(0, 64);
    assert_eq!((s.mi_cols, s.mi_rows, s.sb64_cols, s.sb64_rows), (0, 8, 0, 1));
}
