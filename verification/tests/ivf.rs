//! The IVF container.

use vp9dec::ivf::{write_ivf, IvfError, IvfReader};

fn sample() -> (Vec<Vec<u8>>, Vec<u8>) {
    let frames = vec![vec![1u8, 2, 3], Vec::new(), vec![0xffu8; 300]];
    let file = write_ivf(b"VP90", 352, 288, 30, 1, &frames);
    (frames, file)
}

#[test]
fn the_layout_of_a_written_file() {
    let (_, file) = sample();
    assert_eq!(file.len(), 32 + 3 * 12 + 303);
    assert_eq!(&file[0..4], b"DKIF");
    assert_eq!(&file[4..8], &[0, 0, 32, 0]);
    assert_eq!(&file[8..12], b"VP90");
    assert_eq!(&file[12..16], &[0x60, 0x01, 0x20, 0x01]);
    assert_eq!(&file[16..24], &[30, 0, 0, 0, 1, 0, 0, 0]);
    assert_eq!(&file[24..32], &[3, 0, 0, 0, 0, 0, 0, 0]);
    assert_eq!(&file[32..47], &[3, 0, 0, 0, 0, 0, 0, 0, 0, 0, 0, 0, 1, 2, 3]);
    assert_eq!(&file[47..59], &[0, 0, 0, 0, 1, 0, 0, 0, 0, 0, 0, 0]);
}

#[test]
fn a_written_file_is_read_back() {
    let (frames, file) = sample();
    let mut reader = IvfReader::new(&file).expect("a valid file");
    let h = reader.header();
    assert_eq!(h.version, 0);
    assert_eq!(h.header_length, 32);
    assert_eq!(&h.fourcc, b"VP90");
    assert_eq!((h.width, h.height), (352, 288));
    assert_eq!((h.timebase_denominator, h.timebase_numerator), (30, 1));
    assert_eq!(h.frame_count, 3);
    for (i, frame) in frames.iter().enumerate() {
        let read = reader.next().expect("a frame").expect("a whole frame");
        assert_eq!(read.timestamp, i as u64);
        assert_eq!(read.data, &frame[..]);
    }
    assert!(reader.next().is_none());
    assert!(reader.next().is_none());
}

#[test]
fn files_that_are_not_ivf_are_refused() {
    let (_, file) = sample();
    assert_eq!(
        IvfReader::new(&file[..31]).err(),
        Some(IvfError::TooShortForFileHeader)
    );
    let mut bad = file.clone();
    bad[3] = b'G';
    assert_eq!(IvfReader::new(&bad).err(), Some(IvfError::BadSignature));
    let mut short = file.clone();
    short[6] = 31;
    assert_eq!(IvfReader::new(&short).err(), Some(IvfError::InvalidHeaderLength));
    let mut long = file.clone();
    long[7] = 0xff;
    assert_eq!(IvfReader::new(&long).err(), Some(IvfError::InvalidHeaderLength));
}

#[test]
fn a_longer_header_is_skipped() {
    let (frames, file) = sample();
    let mut padded = file[..32].to_vec();
    padded[6] = 40;
    padded.extend_from_slice(&[0xaa; 8]);
    padded.extend_from_slice(&file[32..]);
    let mut reader = IvfReader::new(&padded).expect("a valid file");
    assert_eq!(reader.header().header_length, 40);
    let first = reader.next().expect("a frame").expect("a whole frame");
    assert_eq!(first.data, &frames[0][..]);
}

#[test]
fn a_cut_frame_header_is_reported_once() {
    let (_, file) = sample();
    let mut reader = IvfReader::new(&file[..32 + 15 + 5]).expect("a valid header");
    assert!(reader.next().expect("a frame").is_ok());
    assert_eq!(reader.next(), Some(Err(IvfError::TruncatedFrameHeader)));
    assert_eq!(reader.next(), None);
}

#[test]
fn cut_frame_data_is_reported_once() {
    let (_, file) = sample();
    let mut reader = IvfReader::new(&file[..32 + 14]).expect("a valid header");
    assert_eq!(reader.next(), Some(Err(IvfError::TruncatedFrameData)));
    assert_eq!(reader.next(), None);
}
