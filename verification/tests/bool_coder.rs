//! The bool decoder.

use vp9dec::bit_reader::BitReader;
use vp9dec::bool_coder::{BoolCoderError, BoolDecoder};
use vp9dec::test_support::BoolEncoder;

fn xorshift32(state: &mut u32) -> u32 {
    let mut x = *state;
    x ^= x << 13;
    x ^= x >> 17;
    x ^= x << 5;
    *state = x;
    x
}

#[test]
fn no_data_is_refused() {
    assert_eq!(BoolDecoder::new(&[]).err(), Some(BoolCoderError::EmptyBuffer));
}

#[test]
fn a_set_marker_is_refused() {
    assert_eq!(
        BoolDecoder::new(&[0x80, 0, 0]).err(),
        Some(BoolCoderError::InvalidMarker)
    );
    assert!(BoolDecoder::new(&[0x7f, 0, 0]).is_ok());
}

#[test]
fn written_bools_are_read_back() {
    let mut seed = 0x2468_ace1u32;
    let bools: Vec<(bool, u8)> = (0..2000)
        .map(|_| {
            let v = xorshift32(&mut seed);
            (v & 1 == 1, (1 + (v >> 8) % 255) as u8)
        })
        .collect();
    let mut enc = BoolEncoder::new();
    for &(bit, p) in &bools {
        enc.write_bool(bit, p);
    }
    let data = enc.finish();
    let mut dec = BoolDecoder::new(&data).expect("a valid marker");
    for (i, &(bit, p)) in bools.iter().enumerate() {
        assert_eq!(dec.read_bool(p), bit, "bool {i}");
    }
}

#[test]
fn literals_and_flags_are_read_back() {
    let mut enc = BoolEncoder::new();
    enc.write_literal(0b1011, 4);
    enc.write_literal(1, 1);
    enc.write_literal(0, 1);
    enc.write_literal(0x1234_5678, 31);
    let data = enc.finish();
    let mut dec = BoolDecoder::new(&data).expect("a valid marker");
    assert_eq!(dec.read_literal(4), 0b1011);
    assert!(dec.flag());
    assert!(!dec.flag());
    assert_eq!(dec.read_literal(31), 0x1234_5678);
    assert_eq!(dec.read_literal(0), 0);
}

#[test]
fn trees_are_walked_to_their_leaves() {
    let tree = [-5, 2, -6, 4, -7, -8];
    let probs = [100u8, 150, 200];
    let paths: [(&[bool], i32); 4] = [
        (&[false], 5),
        (&[true, false], 6),
        (&[true, true, false], 7),
        (&[true, true, true], 8),
    ];
    let mut enc = BoolEncoder::new();
    for (path, _) in &paths {
        for (node, &bit) in path.iter().enumerate() {
            enc.write_bool(bit, probs[node]);
        }
    }
    let data = enc.finish();
    let mut dec = BoolDecoder::new(&data).expect("a valid marker");
    for (_, leaf) in &paths {
        assert_eq!(dec.read_tree(&tree, |node| probs[node]), *leaf);
    }
}

#[test]
fn positions_stop_at_the_end_and_over_reads_are_counted() {
    let data = [0u8, 0];
    let mut dec = BoolDecoder::new(&data).expect("a valid marker");
    assert_eq!(dec.bit_position(), 8);
    assert_eq!(dec.over_read_bits(), 0);
    for _ in 0..8 {
        dec.read_bool(128);
    }
    assert_eq!(dec.bit_position(), 16);
    assert_eq!(dec.over_read_bits(), 0);
    for _ in 0..8 {
        dec.read_bool(128);
    }
    assert_eq!(dec.bit_position(), 16);
    assert_eq!(dec.over_read_bits(), 8);
    let mut other = BoolDecoder::new(&data).expect("a valid marker");
    other.exit_bool();
    assert_eq!(other.bit_position(), 16);
    assert_eq!(other.over_read_bits(), 0);
}

#[test]
fn a_clone_reads_the_same() {
    let data = [0x35u8, 0xc7, 0x91, 0x04];
    let mut a = BoolDecoder::new(&data).expect("a valid marker");
    a.read_bool(77);
    let mut b = a.clone();
    for p in 1..=20u8 {
        assert_eq!(a.read_bool(p * 12), b.read_bool(p * 12));
    }
}

#[test]
fn a_literal_after_the_marker_is_the_raw_bits() {
    let mut seed = 31u32;
    for len in 1..7usize {
        let mut data: Vec<u8> = (0..len).map(|_| xorshift32(&mut seed) as u8).collect();
        data[0] &= 0x7f;
        for n in 0..=32 {
            let mut d = BoolDecoder::new(&data).expect("a clear marker");
            let mut r = BitReader::new(&data);
            assert_eq!(r.f(1), 0);
            assert_eq!(d.read_literal(n), r.f(n));
        }
    }
    let mut d = BoolDecoder::new(&[0x5a, 0xc3]).expect("a clear marker");
    assert_eq!(d.read_literal(12), 0xb58);
}
