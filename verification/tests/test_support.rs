//! Writing what the readers read.

use vp9dec::bit_reader::BitReader;
use vp9dec::bool_coder::BoolDecoder;
use vp9dec::test_support::{BitWriter, BoolEncoder};

#[test]
fn bits_are_packed_from_the_top() {
    let mut w = BitWriter::new();
    w.push_bits(0b101, 3);
    w.push_flag(true);
    w.push_bits(0xff, 8);
    assert_eq!(w.finish(), vec![0b1011_1111, 0b1111_0000]);
    assert_eq!(BitWriter::default().finish(), Vec::<u8>::new());
}

#[test]
fn written_fields_are_read_back() {
    let mut w = BitWriter::new();
    w.push_bits(5, 3);
    w.push_signed(-17, 6);
    w.push_signed(0, 4);
    w.push_bits(u32::MAX, 32);
    w.push_signed(9, 4);
    w.push_flag(false);
    let bytes = w.finish();
    let mut r = BitReader::new(&bytes);
    assert_eq!(r.f(3), 5);
    assert_eq!(r.s(6), -17);
    assert_eq!(r.s(4), 0);
    assert_eq!(r.f(32), u32::MAX);
    assert_eq!(r.s(4), 9);
    assert!(!r.flag());
    assert_eq!(r.bit_position(), 53);
    assert_eq!(bytes.len(), 7);
    assert!(!r.is_byte_aligned());
}

#[test]
fn an_encoder_starts_with_a_marker() {
    // One bool of even odds leaves the range at its least width.
    assert_eq!(BoolEncoder::new().finish(), vec![0]);
    let mut e = BoolEncoder::default();
    e.write_bool(true, 128);
    assert_eq!(e.finish(), vec![0x40, 0]);
}

#[test]
fn extreme_probabilities_are_read_back() {
    let mut e = BoolEncoder::new();
    for i in 0..300u32 {
        e.write_bool(i % 3 == 0, if i % 2 == 0 { 1 } else { 255 });
    }
    let data = e.finish();
    let mut d = BoolDecoder::new(&data).expect("a valid marker");
    for i in 0..300u32 {
        assert_eq!(d.read_bool(if i % 2 == 0 { 1 } else { 255 }), i % 3 == 0, "bool {i}");
    }
    assert_eq!(d.over_read_bits(), 0);
}
