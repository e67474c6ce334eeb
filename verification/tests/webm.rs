//! WebM files.

use vp9dec::ivf::IvfReader;
use vp9dec::webm::{collect_frames, find_segment, find_vp9_track, webm_to_ivf, WebmError};

/// An element with a size of two bytes.
fn element(id: &[u8], content: &[u8]) -> Vec<u8> {
    let mut out = id.to_vec();
    out.push(0x40 | (content.len() >> 8) as u8);
    out.push(content.len() as u8);
    out.extend_from_slice(content);
    out
}

/// An element of open size.
fn open(id: &[u8], content: &[u8]) -> Vec<u8> {
    let mut out = id.to_vec();
    out.push(0xff);
    out.extend_from_slice(content);
    out
}

const HEADER: &[u8] = &[0x1A, 0x45, 0xDF, 0xA3];
const SEGMENT: &[u8] = &[0x18, 0x53, 0x80, 0x67];
const TRACKS: &[u8] = &[0x16, 0x54, 0xAE, 0x6B];
const CLUSTER: &[u8] = &[0x1F, 0x43, 0xB6, 0x75];
const CUES: &[u8] = &[0x1C, 0x53, 0xBB, 0x6B];

fn entry(number: u8, kind: u8, codec: &[u8], size: Option<(u16, u16)>) -> Vec<u8> {
    let mut c = element(&[0xD7], &[number]);
    c.extend(element(&[0x83], &[kind]));
    c.extend(element(&[0x86], codec));
    if let Some((w, h)) = size {
        let mut v = element(&[0xB0], &w.to_be_bytes());
        v.extend(element(&[0xBA], &h.to_be_bytes()));
        c.extend(element(&[0xE0], &v));
    }
    element(&[0xAE], &c)
}

fn block(track: u8, flags: u8, data: &[u8]) -> Vec<u8> {
    let mut b = vec![0x80 | track, 0, 0, flags];
    b.extend_from_slice(data);
    b
}

fn tracks() -> Vec<u8> {
    let mut t = entry(1, 2, b"A_OPUS", None);
    t.extend(entry(2, 1, b"V_VP9", Some((320, 200))));
    element(TRACKS, &t)
}

fn file(body: &[u8]) -> Vec<u8> {
    let mut out = element(HEADER, &[1, 2, 3]);
    out.extend(element(SEGMENT, body));
    out
}

#[test]
fn frames_of_the_track_are_taken_out_in_order() {
    let mut cluster = element(&[0xE7], &[0]);
    cluster.extend(element(&[0xA3], &block(2, 0x80, b"one")));
    cluster.extend(element(&[0xA3], &block(1, 0, b"sound")));
    let group = element(&[0xA1], &block(2, 0, b"two"));
    cluster.extend(element(&[0xA0], &group));
    let mut body = tracks();
    body.extend(element(CLUSTER, &cluster));
    body.extend(open(CLUSTER, &element(&[0xA3], &block(2, 0, b"three"))));
    body.extend(element(CUES, b"ignored"));
    body.extend(element(CLUSTER, &element(&[0xA3], &block(2, 0, b""))));
    let ivf = webm_to_ivf(&file(&body)).expect("a valid file");
    let mut reader = IvfReader::new(&ivf).expect("a valid file");
    assert_eq!(&reader.header().fourcc, b"VP90");
    assert_eq!((reader.header().width, reader.header().height), (320, 200));
    assert_eq!((reader.header().timebase_denominator, reader.header().timebase_numerator), (1, 1));
    let expected: [&[u8]; 4] = [b"one", b"two", b"three", b""];
    for (i, data) in expected.iter().enumerate() {
        let frame = reader.next().expect("a frame").expect("a whole frame");
        assert_eq!((frame.timestamp, frame.data), (i as u64, *data));
    }
    assert!(reader.next().is_none());
}

#[test]
fn the_parts_of_a_file() {
    let body = tracks();
    let data = file(&body);
    let (start, end) = find_segment(&data).expect("a segment");
    assert_eq!(&data[start..end], &body[..]);
    let track = find_vp9_track(&data, start, end).expect("a track");
    assert_eq!((track.number, track.width, track.height), (2, 320, 200));
    assert_eq!(collect_frames(&data, start, end, 2), Ok(Vec::new()));
    // A segment of open size goes on to the end of the file.
    let data = open(SEGMENT, &body);
    assert_eq!(find_segment(&data), Ok((5, data.len())));
}

#[test]
fn broken_elements_are_refused() {
    assert_eq!(webm_to_ivf(&[]).err(), Some(WebmError::NoSegment));
    assert_eq!(webm_to_ivf(&[0]).err(), Some(WebmError::InvalidNumber));
    assert_eq!(webm_to_ivf(&[0x1A, 0x45]).err(), Some(WebmError::NumberOverrun));
    assert_eq!(webm_to_ivf(&[0xEC]).err(), Some(WebmError::UnexpectedEnd));
    assert_eq!(webm_to_ivf(&[0xEC, 0x85, 1]).err(), Some(WebmError::ElementOverrun));
    assert_eq!(webm_to_ivf(&[0xEC, 0xFF, 1]).err(), Some(WebmError::OpenSize));
    assert_eq!(webm_to_ivf(&[0xEC, 0x81, 1]).err(), Some(WebmError::NoSegment));
}

#[test]
fn files_without_a_usable_track_are_refused() {
    assert_eq!(webm_to_ivf(&file(&[])).err(), Some(WebmError::NoTracks));
    let cases: [(Vec<u8>, WebmError); 4] = [
        (entry(1, 1, b"V_VP8", Some((8, 8))), WebmError::NoVp9Track),
        (entry(1, 2, b"V_VP9", Some((8, 8))), WebmError::NoVp9Track),
        (entry(1, 1, b"V_VP9", None), WebmError::NoDimensions),
        (element(&[0xAE], &element(&[0xE0], &element(&[0xBA], &[1]))), WebmError::NoPixelWidth),
    ];
    for (track, error) in cases {
        assert_eq!(webm_to_ivf(&file(&element(TRACKS, &track))).err(), Some(error));
    }
    let no_height = element(&[0xAE], &element(&[0xE0], &element(&[0xB0], &[1])));
    assert_eq!(
        webm_to_ivf(&file(&element(TRACKS, &no_height))).err(),
        Some(WebmError::NoPixelHeight)
    );
    let mut large = element(&[0xB0], &[1, 0, 0]);
    large.extend(element(&[0xBA], &[1]));
    let large = element(&[0xAE], &element(&[0xE0], &large));
    assert_eq!(
        webm_to_ivf(&file(&element(TRACKS, &large))).err(),
        Some(WebmError::DimensionTooLarge)
    );
    let mut nameless = element(&[0x83], &[1]);
    nameless.extend(element(&[0x86], b"V_VP9"));
    assert_eq!(
        webm_to_ivf(&file(&element(TRACKS, &element(&[0xAE], &nameless)))).err(),
        Some(WebmError::NoTrackNumber)
    );
}

#[test]
fn broken_blocks_are_refused() {
    for (content, error) in [
        (vec![0x82, 0, 0], WebmError::TruncatedBlock),
        (block(2, 0x06, b"laced"), WebmError::LacedBlock),
    ] {
        let mut body = tracks();
        body.extend(element(CLUSTER, &element(&[0xA3], &content)));
        assert_eq!(webm_to_ivf(&file(&body)).err(), Some(error));
    }
    let mut body = tracks();
    body.extend(open(&[0xEC], &[1]));
    assert_eq!(webm_to_ivf(&file(&body)).err(), Some(WebmError::OpenSize));
}
