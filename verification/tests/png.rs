//! PNG files.

use vp9dec::png::{adler32, crc32, deflate_stored, encode_png, zlib_compress_stored, PNG_SIGNATURE};

/// Reads stored blocks back.
fn inflate(data: &[u8]) -> Vec<u8> {
    let mut out = Vec::new();
    let mut pos = 0;
    loop {
        let last = data[pos] & 1 == 1;
        let len = u16::from_le_bytes([data[pos + 1], data[pos + 2]]);
        let complement = u16::from_le_bytes([data[pos + 3], data[pos + 4]]);
        assert_eq!(complement, !len);
        pos += 5;
        out.extend_from_slice(&data[pos..pos + len as usize]);
        pos += len as usize;
        if last {
            assert_eq!(pos, data.len());
            return out;
        }
    }
}

#[test]
fn crc32_matches_known_vector() {
    assert_eq!(crc32(b"123456789"), 0xCBF4_3926);
    assert_eq!(crc32(b""), 0);
    assert_eq!(crc32(b"IEND"), 0xAE42_6082);
}

#[test]
fn adler32_matches_known_vector() {
    assert_eq!(adler32(b"Wikipedia"), 0x11E6_0398);
    assert_eq!(adler32(b""), 1);
}

#[test]
fn deflate_stored_roundtrips_via_manual_inflate() {
    let data: Vec<u8> = (0..200_000u32).map(|i| (i % 251) as u8).collect();
    assert_eq!(inflate(&deflate_stored(&data)), data);
    for n in [0usize, 1, 65535, 65536, 131070] {
        let data = vec![7u8; n];
        assert_eq!(inflate(&deflate_stored(&data)), data);
    }
}

#[test]
fn a_zlib_stream_has_a_head_and_a_checksum() {
    let out = zlib_compress_stored(b"Wikipedia");
    assert_eq!(&out[..2], &[0x78, 0x01]);
    assert_eq!(inflate(&out[2..out.len() - 4]), b"Wikipedia");
    assert_eq!(&out[out.len() - 4..], &[0x11, 0xE6, 0x03, 0x98]);
}

#[test]
fn encode_png_produces_valid_signature_and_chunks() {
    let rgb = vec![255u8, 0, 0, 0, 255, 0, 0, 0, 255, 255, 255, 0];
    let png = encode_png(2, 2, &rgb);
    assert_eq!(&png[0..8], &PNG_SIGNATURE);
    assert_eq!(&png[8..16], &[0, 0, 0, 13, b'I', b'H', b'D', b'R']);
    assert_eq!(&png[16..29], &[0, 0, 0, 2, 0, 0, 0, 2, 8, 2, 0, 0, 0]);
    assert_eq!(&png[png.len() - 8..png.len() - 4], b"IEND");
    assert_eq!(&png[png.len() - 4..], &[0xAE, 0x42, 0x60, 0x82]);
    let at = png.windows(4).position(|w| w == b"IDAT").expect("a data chunk");
    let len = u32::from_be_bytes([png[at - 4], png[at - 3], png[at - 2], png[at - 1]]) as usize;
    let lines = inflate(&png[at + 6..at + 4 + len - 4]);
    assert_eq!(lines, vec![0, 255, 0, 0, 0, 255, 0, 0, 0, 0, 255, 255, 255, 0]);
}

#[test]
fn a_picture_without_samples_is_still_a_file() {
    let png = encode_png(0, 0, &[]);
    assert_eq!(&png[0..8], &PNG_SIGNATURE);
    assert_eq!(png.len(), 8 + 25 + 12 + 11 + 12);
}
