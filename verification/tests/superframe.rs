//! Splitting chunks into frames.

use vp9dec::superframe::split_superframe;

/// A superframe of the given frames, with `bytes` bytes per size.
fn superframe(frames: &[&[u8]], bytes: usize) -> Vec<u8> {
    let marker = 0xc0u8 | ((bytes - 1) as u8) << 3 | (frames.len() - 1) as u8;
    let mut out = Vec::new();
    for f in frames {
        out.extend_from_slice(f);
    }
    out.push(marker);
    for f in frames {
        for b in 0..bytes {
            out.push((f.len() >> (8 * b)) as u8);
        }
    }
    out.push(marker);
    out
}

#[test]
fn a_chunk_without_an_index_is_one_frame() {
    let data = [1u8, 2, 3, 4];
    assert_eq!(split_superframe(&data), vec![&data[..]]);
    assert_eq!(split_superframe(&[]), vec![&[][..]]);
}

#[test]
fn the_frames_of_an_index_are_taken_apart() {
    let a = vec![7u8; 300];
    let b = [9u8, 8, 7];
    for bytes in 2..=4 {
        let data = superframe(&[&a, &b, &[]], bytes);
        let frames = split_superframe(&data);
        assert_eq!(frames, vec![&a[..], &b[..], &[][..]]);
    }
}

#[test]
fn one_byte_sizes_and_eight_frames() {
    let parts: Vec<Vec<u8>> = (0..8u8).map(|i| vec![i; i as usize + 1]).collect();
    let refs: Vec<&[u8]> = parts.iter().map(|p| p.as_slice()).collect();
    let data = superframe(&refs, 1);
    assert_eq!(split_superframe(&data), refs);
}

#[test]
fn a_marker_that_is_not_repeated_is_no_index() {
    let mut data = superframe(&[&[1, 2], &[3]], 1);
    let first = data.len() - 4;
    data[first] = 0;
    assert_eq!(split_superframe(&data), vec![&data[..]]);
}

#[test]
fn a_chunk_shorter_than_its_index_is_one_frame() {
    let data = [0xc7u8, 1, 1, 1, 0xc7];
    assert_eq!(split_superframe(&data), vec![&data[..]]);
}

#[test]
fn sizes_beyond_the_payload_make_it_one_frame() {
    let mut data = superframe(&[&[1, 2], &[3]], 1);
    let first_size = data.len() - 3;
    data[first_size] = 200;
    assert_eq!(split_superframe(&data), vec![&data[..]]);
}

#[test]
fn bytes_that_no_frame_claims_are_dropped() {
    let mut data = superframe(&[&[1, 2], &[3]], 1);
    let first_size = data.len() - 3;
    data[first_size] = 1;
    assert_eq!(split_superframe(&data), vec![&[1u8][..], &[2u8][..]]);
}
