//! WebM files: enough of the container to take the frames of a VP9 track out of
//! it.
//!
//! A file is made of elements, each with an id, a size and its content. Ids and
//! sizes are numbers whose first byte says how long they are. A size of all ones
//! leaves the end of the element open.

use vstd::arithmetic::div_mod::{lemma_fundamental_div_mod, lemma_fundamental_div_mod_converse};
use vstd::prelude::*;
use crate::common::push_bytes;
use crate::ivf::{contents, frame_records, header_bytes, write_ivf};

pub mod laws;

verus! {

pub const ID_EBML_HEADER: u64 = 0x1A45_DFA3;
pub const ID_SEGMENT: u64 = 0x1853_8067;
pub const ID_TRACKS: u64 = 0x1654_AE6B;
pub const ID_TRACK_ENTRY: u64 = 0xAE;
pub const ID_TRACK_NUMBER: u64 = 0xD7;
pub const ID_TRACK_TYPE: u64 = 0x83;
pub const ID_CODEC_ID: u64 = 0x86;
pub const ID_VIDEO: u64 = 0xE0;
pub const ID_PIXEL_WIDTH: u64 = 0xB0;
pub const ID_PIXEL_HEIGHT: u64 = 0xBA;
pub const ID_CLUSTER: u64 = 0x1F43_B675;
pub const ID_SIMPLE_BLOCK: u64 = 0xA3;
pub const ID_BLOCK_GROUP: u64 = 0xA0;
pub const ID_BLOCK: u64 = 0xA1;

/// The elements that can stand next to a cluster, where one of open size ends.
pub const SEGMENT_LEVEL_IDS: [u64; 9] = [
    0x1853_8067,
    0x1654_AE6B,
    0x1F43_B675,
    0x114D_9B74,
    0x1549_A966,
    0x1C53_BB6B,
    0x1043_A770,
    0x1254_C367,
    0x1941_A469,
];

/// The type of video tracks.
pub const TRACK_TYPE_VIDEO: u64 = 1;

/// The codec id of VP9 tracks: `V_VP9`.
pub const VP9_CODEC_ID: [u8; 5] = [86, 95, 86, 80, 57];

/// Why no frames can be taken out of a file.
#[derive(Debug, Clone, Copy, PartialEq, Eq, Structural)]
pub enum WebmError {
    /// The data ends where a number should start.
    UnexpectedEnd,
    /// A number starts with a byte of zeros.
    InvalidNumber,
    /// A number goes beyond its element.
    NumberOverrun,
    /// An element goes beyond the one that it is in.
    ElementOverrun,
    /// An element that must have a size has none.
    OpenSize,
    /// There is no segment.
    NoSegment,
    /// There is no list of tracks.
    NoTracks,
    /// There is no VP9 track.
    NoVp9Track,
    /// The VP9 track has no number.
    NoTrackNumber,
    /// The VP9 track has no size.
    NoDimensions,
    /// A video track has no width.
    NoPixelWidth,
    /// A video track has no height.
    NoPixelHeight,
    /// A width or height does not fit into 16 bits.
    DimensionTooLarge,
    /// A block ends before its data.
    TruncatedBlock,
    /// A block holds several frames.
    LacedBlock,
}

/// An element: its id and where its content is. The content of an element of
/// open size goes on to the end of the one that it is in.
#[derive(Debug, Clone, Copy)]
pub struct Element {
    pub id: u64,
    pub start: usize,
    pub end: usize,
    pub size_known: bool,
}

/// The VP9 track of a file.
#[derive(Debug, Clone, Copy)]
pub struct Vp9Track {
    pub number: u64,
    pub width: u16,
    pub height: u16,
}

// ---------------------------------------------------------------------------
// Numbers.
// ---------------------------------------------------------------------------

/// The value of bytes, most significant first.
pub open spec fn big_endian(s: Seq<u8>) -> int
    decreases s.len(),
{
    if s.len() == 0 {
        0
    } else {
        256 * big_endian(s.drop_last()) + s.last()
    }
}

/// The length of a number that starts with the byte.
pub open spec fn number_len(first: u8) -> int {
    if first >= 128 {
        1
    } else if first >= 64 {
        2
    } else if first >= 32 {
        3
    } else if first >= 16 {
        4
    } else if first >= 8 {
        5
    } else if first >= 4 {
        6
    } else if first >= 2 {
        7
    } else {
        8
    }
}

/// The bit of the first byte that marks its length.
pub open spec fn length_marker(first: u8) -> int {
    if first >= 128 {
        128
    } else if first >= 64 {
        64
    } else if first >= 32 {
        32
    } else if first >= 16 {
        16
    } else if first >= 8 {
        8
    } else if first >= 4 {
        4
    } else if first >= 2 {
        2
    } else {
        1
    }
}

/// Why there is no number at a position, in data that ends at `end`.
pub open spec fn number_refusal(d: Seq<u8>, pos: int, end: int) -> Option<WebmError> {
    if pos >= end {
        Some(WebmError::UnexpectedEnd)
    } else if d[pos] == 0 {
        Some(WebmError::InvalidNumber)
    } else if pos + number_len(d[pos]) > end {
        Some(WebmError::NumberOverrun)
    } else {
        None
    }
}

/// Where the number at a position ends.
pub open spec fn number_end(d: Seq<u8>, pos: int) -> int {
    pos + number_len(d[pos])
}

/// The number with its length marker, which ids keep.
pub open spec fn marked_number(d: Seq<u8>, pos: int) -> int {
    big_endian(d.subrange(pos, number_end(d, pos)))
}

/// The number without its length marker.
pub open spec fn number_at(d: Seq<u8>, pos: int) -> int {
    big_endian(
        d.subrange(pos, number_end(d, pos)).update(0, (d[pos] - length_marker(d[pos])) as u8),
    )
}

/// All bits of the number behind its length marker are ones.
pub open spec fn is_all_ones(d: Seq<u8>, pos: int) -> bool {
    &&& d[pos] == 2 * length_marker(d[pos]) - 1
    &&& forall|i: int| pos < i < number_end(d, pos) ==> #[trigger] d[i] == 255
}

proof fn lemma_big_endian_push(s: Seq<u8>, b: u8)
    ensures
        big_endian(s.push(b)) == 256 * big_endian(s) + b,
{
    assert(s.push(b).drop_last() =~= s);
}

/// The length of the number at a position.
fn check_number(buf: &[u8], pos: usize, end: usize) -> (res: Result<usize, WebmError>)
    requires
        end <= buf.len(),
    ensures
        match res {
            Ok(n) => {
                &&& number_refusal(buf@, pos as int, end as int) is None
                &&& n == number_len(buf@[pos as int])
                &&& 1 <= n <= 8
                &&& pos + n <= end
            },
            Err(e) => number_refusal(buf@, pos as int, end as int) == Some(e),
        },
{
    if pos >= end {
        return Err(WebmError::UnexpectedEnd);
    }
    let first: u8 = buf[pos];
    if first == 0 {
        return Err(WebmError::InvalidNumber);
    }
    let n: usize = if first >= 128 {
        1
    } else if first >= 64 {
        2
    } else if first >= 32 {
        3
    } else if first >= 16 {
        4
    } else if first >= 8 {
        5
    } else if first >= 4 {
        6
    } else if first >= 2 {
        7
    } else {
        8
    };
    if n > end - pos {
        return Err(WebmError::NumberOverrun);
    }
    Ok(n)
}

/// The value of up to eight bytes, the first of which is given.
fn read_bytes(buf: &[u8], pos: usize, n: usize, first: u8) -> (v: u64)
    requires
        1 <= n <= 8,
        pos + n <= buf.len(),
    ensures
        v == big_endian(buf@.subrange(pos as int, pos + n).update(0, first)),
{
    let ghost s = buf@.subrange(pos as int, pos + n).update(0, first);
    let mut v: u64 = first as u64;
    proof {
        assert(s.subrange(0, 1).drop_last() =~= Seq::<u8>::empty());
        reveal_with_fuel(big_endian, 2);
        assert(s.subrange(0, 1)[0] == first);
    }
    let mut i: usize = 1;
    while i < n
        invariant
            1 <= i <= n <= 8,
            pos + n <= buf.len(),
            s == buf@.subrange(pos as int, pos + n).update(0, first),
            v == big_endian(s.subrange(0, i as int)),
            i == 1 ==> v <= 0xff,
            i == 2 ==> v <= 0xffff,
            i == 3 ==> v <= 0xff_ffff,
            i == 4 ==> v <= 0xffff_ffff,
            i == 5 ==> v <= 0xff_ffff_ffff,
            i == 6 ==> v <= 0xffff_ffff_ffff,
            i == 7 ==> v <= 0xff_ffff_ffff_ffff,
        decreases n - i,
    {
        proof {
            lemma_big_endian_push(s.subrange(0, i as int), s[i as int]);
            assert(s.subrange(0, i as int).push(s[i as int]) =~= s.subrange(0, i + 1));
        }
        v = v * 256 + buf[pos + i] as u64;
        i = i + 1;
    }
    assert(s.subrange(0, n as int) =~= s);
    v
}

/// Reads a number and gives it with where it ends.
fn read_number(buf: &[u8], pos: usize, end: usize) -> (res: Result<(u64, usize), WebmError>)
    requires
        end <= buf.len(),
    ensures
        match res {
            Ok((v, after)) => {
                &&& number_refusal(buf@, pos as int, end as int) is None
                &&& v == number_at(buf@, pos as int)
                &&& after == number_end(buf@, pos as int)
                &&& pos < after <= end
            },
            Err(e) => number_refusal(buf@, pos as int, end as int) == Some(e),
        },
{
    let n: usize = match check_number(buf, pos, end) {
        Ok(n) => n,
        Err(e) => {
            return Err(e);
        },
    };
    let first: u8 = buf[pos];
    let stripped: u8 = first - marker_of(first);
    Ok((read_bytes(buf, pos, n, stripped), pos + n))
}

/// The bit of the first byte that marks its length.
fn marker_of(first: u8) -> (m: u8)
    requires
        first > 0,
    ensures
        m == length_marker(first),
        m <= first,
{
    if first >= 128 {
        128
    } else if first >= 64 {
        64
    } else if first >= 32 {
        32
    } else if first >= 16 {
        16
    } else if first >= 8 {
        8
    } else if first >= 4 {
        4
    } else if first >= 2 {
        2
    } else {
        1
    }
}

// ---------------------------------------------------------------------------
// Elements.
// ---------------------------------------------------------------------------

/// The id of the element at a position.
pub open spec fn element_id(d: Seq<u8>, pos: int) -> int {
    marked_number(d, pos)
}

/// Where the size of the element stands.
pub open spec fn size_pos(d: Seq<u8>, pos: int) -> int {
    number_end(d, pos)
}

/// Where the content of the element starts.
pub open spec fn content_start(d: Seq<u8>, pos: int) -> int {
    number_end(d, size_pos(d, pos))
}

/// The element has a size.
pub open spec fn has_size(d: Seq<u8>, pos: int) -> bool {
    !is_all_ones(d, size_pos(d, pos))
}

/// Where the element ends, inside one that ends at `outer`.
pub open spec fn content_end(d: Seq<u8>, pos: int, outer: int) -> int {
    if has_size(d, pos) {
        content_start(d, pos) + number_at(d, size_pos(d, pos))
    } else {
        outer
    }
}

/// Why there is no element at a position, inside one that ends at `outer`.
pub open spec fn element_refusal(d: Seq<u8>, pos: int, outer: int) -> Option<WebmError> {
    if number_refusal(d, pos, outer) is Some {
        number_refusal(d, pos, outer)
    } else if number_refusal(d, size_pos(d, pos), outer) is Some {
        number_refusal(d, size_pos(d, pos), outer)
    } else if content_end(d, pos, outer) > outer {
        Some(WebmError::ElementOverrun)
    } else {
        None
    }
}

proof fn lemma_big_endian_nonneg(s: Seq<u8>)
    ensures
        big_endian(s) >= 0,
    decreases s.len(),
{
    if s.len() > 0 {
        lemma_big_endian_nonneg(s.drop_last());
    }
}

/// An element ends behind where it starts, inside the one that it is in.
pub proof fn lemma_element_advances(d: Seq<u8>, pos: int, outer: int)
    requires
        element_refusal(d, pos, outer) is None,
    ensures
        pos < content_start(d, pos) <= content_end(d, pos, outer) <= outer,
{
    let at = size_pos(d, pos);
    lemma_big_endian_nonneg(
        d.subrange(at, number_end(d, at)).update(0, (d[at] - length_marker(d[at])) as u8),
    );
}

/// Reads the head of an element inside one that ends at `outer_end`.
fn read_header(buf: &[u8], pos: usize, outer_end: usize) -> (res: Result<Element, WebmError>)
    requires
        outer_end <= buf.len(),
    ensures
        match res {
            Ok(e) => {
                &&& element_refusal(buf@, pos as int, outer_end as int) is None
                &&& e.id == element_id(buf@, pos as int)
                &&& e.start == content_start(buf@, pos as int)
                &&& e.end == content_end(buf@, pos as int, outer_end as int)
                &&& e.size_known == has_size(buf@, pos as int)
                &&& pos < e.start <= e.end <= outer_end
            },
            Err(e) => element_refusal(buf@, pos as int, outer_end as int) == Some(e),
        },
{
    let n: usize = match check_number(buf, pos, outer_end) {
        Ok(n) => n,
        Err(e) => {
            return Err(e);
        },
    };
    let id: u64 = read_bytes(buf, pos, n, buf[pos]);
    proof {
        let s = buf@.subrange(pos as int, pos + n);
        assert(s.update(0, buf@[pos as int]) =~= s);
    }
    let at: usize = pos + n;
    let (size, start) = match read_number(buf, at, outer_end) {
        Ok(r) => r,
        Err(e) => {
            return Err(e);
        },
    };
    let first: u8 = buf[at];
    let mut all_ones: bool = first - marker_of(first) == marker_of(first) - 1;
    let mut i: usize = at + 1;
    while i < start
        invariant
            at < i <= start <= buf.len(),
            all_ones == (buf@[at as int] == 2 * length_marker(buf@[at as int]) - 1 && forall|k: int|
                at < k < i ==> #[trigger] buf@[k] == 255),
        decreases start - i,
    {
        if buf[i] != 255 {
            all_ones = false;
        }
        i = i + 1;
    }
    if all_ones {
        Ok(Element { id, start, end: outer_end, size_known: false })
    } else if size > (outer_end - start) as u64 {
        Err(WebmError::ElementOverrun)
    } else {
        Ok(Element { id, start, end: start + size as usize, size_known: true })
    }
}

/// The unsigned number that an element holds, modulo `2^64`.
pub open spec fn uint_of(s: Seq<u8>) -> int {
    big_endian(s) % 0x1_0000_0000_0000_0000
}

/// A byte behind a number modulo `2^64` drops its top byte.
#[verifier::spinoff_prover]
proof fn lemma_shift_byte(b: int, byte: int)
    requires
        0 <= b,
        0 <= byte < 256,
    ensures
        (256 * b + byte) % 0x1_0000_0000_0000_0000 == 256 * ((b % 0x1_0000_0000_0000_0000)
            % 0x100_0000_0000_0000) + byte,
{
    let m: int = 0x1_0000_0000_0000_0000;
    let k: int = 0x100_0000_0000_0000;
    let v = b % m;
    let low = v % k;
    lemma_fundamental_div_mod(b, m);
    lemma_fundamental_div_mod(v, k);
    let q = b / m;
    let r = v / k;
    assert(256 * b + byte == (256 * q + r) * m + (256 * low + byte)) by (nonlinear_arith)
        requires
            b == m * q + v,
            v == k * r + low,
            m == 256 * k,
    ;
    lemma_fundamental_div_mod_converse(256 * b + byte, m, 256 * q + r, 256 * low + byte);
}

fn read_uint(buf: &[u8], start: usize, end: usize) -> (v: u64)
    requires
        start <= end <= buf.len(),
    ensures
        v == uint_of(buf@.subrange(start as int, end as int)),
{
    let mut v: u64 = 0;
    let mut i: usize = start;
    assert(buf@.subrange(start as int, start as int) =~= Seq::<u8>::empty());
    while i < end
        invariant
            start <= i <= end <= buf.len(),
            v == uint_of(buf@.subrange(start as int, i as int)),
        decreases end - i,
    {
        let ghost s = buf@.subrange(start as int, i as int);
        proof {
            lemma_big_endian_nonneg(s);
            lemma_big_endian_push(s, buf@[i as int]);
            assert(s.push(buf@[i as int]) =~= buf@.subrange(start as int, i + 1));
        }
        let low: u64 = v % 0x100_0000_0000_0000;
        let byte: u64 = buf[i] as u64;
        proof {
            lemma_shift_byte(big_endian(s), byte as int);
        }
        v = low * 256 + byte;
        i = i + 1;
    }
    v
}

// ---------------------------------------------------------------------------
// Tracks.
// ---------------------------------------------------------------------------

/// The content of the element at a position.
pub open spec fn content(d: Seq<u8>, pos: int, outer: int) -> Seq<u8> {
    d.subrange(content_start(d, pos), content_end(d, pos, outer))
}

/// The segment: the first element with its id at the top of the file. The ones
/// before it must have a size.
pub open spec fn segment_from(d: Seq<u8>, pos: int) -> Result<(int, int), WebmError>
    decreases d.len() - pos,
{
    let end = d.len() as int;
    if pos >= end {
        Err(WebmError::NoSegment)
    } else if element_refusal(d, pos, end) is Some {
        Err(element_refusal(d, pos, end)->0)
    } else if element_id(d, pos) == ID_SEGMENT {
        Ok((content_start(d, pos), content_end(d, pos, end)))
    } else if !has_size(d, pos) {
        Err(WebmError::OpenSize)
    } else if content_end(d, pos, end) <= pos {
        Err(WebmError::NoSegment)
    } else {
        segment_from(d, content_end(d, pos, end))
    }
}

/// Finds the segment and gives where its content is.
pub fn find_segment(buf: &[u8]) -> (res: Result<(usize, usize), WebmError>)
    ensures
        match (res, segment_from(buf@, 0)) {
            (Ok((s, e)), Ok((start, end))) => s == start && e == end && s <= e <= buf.len(),
            (Err(a), Err(b)) => a == b,
            _ => false,
        },
{
    let mut pos: usize = 0;
    let file_end: usize = buf.len();
    while pos < file_end
        invariant
            pos <= file_end == buf.len(),
            segment_from(buf@, pos as int) == segment_from(buf@, 0),
        decreases file_end - pos,
    {
        let elem: Element = match read_header(buf, pos, file_end) {
            Ok(e) => e,
            Err(e) => {
                return Err(e);
            },
        };
        if elem.id == ID_SEGMENT {
            return Ok((elem.start, elem.end));
        }
        if !elem.size_known {
            return Err(WebmError::OpenSize);
        }
        pos = elem.end;
    }
    Err(WebmError::NoSegment)
}

/// What a video element says of the size, after the fields from `pos` on: the
/// last width and height count.
pub open spec fn video_from(
    d: Seq<u8>,
    pos: int,
    end: int,
    width: Option<int>,
    height: Option<int>,
) -> Result<(int, int), WebmError>
    decreases end - pos,
{
    if pos >= end {
        match (width, height) {
            (None, _) => Err(WebmError::NoPixelWidth),
            (_, None) => Err(WebmError::NoPixelHeight),
            (Some(w), Some(h)) => if w > 0xffff || h > 0xffff {
                Err(WebmError::DimensionTooLarge)
            } else {
                Ok((w, h))
            },
        }
    } else if element_refusal(d, pos, end) is Some {
        Err(element_refusal(d, pos, end)->0)
    } else if content_end(d, pos, end) <= pos {
        Err(WebmError::NoPixelWidth)
    } else {
        let id = element_id(d, pos);
        let value = uint_of(content(d, pos, end));
        video_from(
            d,
            content_end(d, pos, end),
            end,
            if id == ID_PIXEL_WIDTH {
                Some(value)
            } else {
                width
            },
            if id == ID_PIXEL_HEIGHT {
                Some(value)
            } else {
                height
            },
        )
    }
}

/// The value of an optional number.
pub open spec fn opt(v: Option<u64>) -> Option<int> {
    match v {
        Some(x) => Some(x as int),
        None => None,
    }
}

/// Reads the size that a video element gives.
fn parse_video(buf: &[u8], start: usize, end: usize) -> (res: Result<(u16, u16), WebmError>)
    requires
        start <= end <= buf.len(),
    ensures
        match (res, video_from(buf@, start as int, end as int, None, None)) {
            (Ok((w, h)), Ok((sw, sh))) => w == sw && h == sh,
            (Err(a), Err(b)) => a == b,
            _ => false,
        },
{
    let mut width: Option<u64> = None;
    let mut height: Option<u64> = None;
    let mut pos: usize = start;
    while pos < end
        invariant
            start <= pos <= end <= buf.len(),
            video_from(buf@, pos as int, end as int, opt(width), opt(height)) == video_from(
                buf@,
                start as int,
                end as int,
                None,
                None,
            ),
        decreases end - pos,
    {
        let elem: Element = match read_header(buf, pos, end) {
            Ok(e) => e,
            Err(e) => {
                return Err(e);
            },
        };
        let value: u64 = read_uint(buf, elem.start, elem.end);
        if elem.id == ID_PIXEL_WIDTH {
            width = Some(value);
        }
        if elem.id == ID_PIXEL_HEIGHT {
            height = Some(value);
        }
        pos = elem.end;
    }
    match (width, height) {
        (None, _) => Err(WebmError::NoPixelWidth),
        (_, None) => Err(WebmError::NoPixelHeight),
        (Some(w), Some(h)) => {
            if w > 0xffff || h > 0xffff {
                Err(WebmError::DimensionTooLarge)
            } else {
                Ok((w as u16, h as u16))
            }
        },
    }
}

/// What is known of a track: the last of each field counts.
pub struct TrackFields {
    pub number: Option<int>,
    pub kind: Option<int>,
    pub is_vp9: bool,
    pub dims: Option<(int, int)>,
}

/// Nothing is known yet.
pub open spec fn no_fields() -> TrackFields {
    TrackFields { number: None, kind: None, is_vp9: false, dims: None }
}

/// What the fields of a track say: the number and size of a VP9 video track,
/// nothing of another.
pub open spec fn track_of(f: TrackFields) -> Result<Option<(int, int, int)>, WebmError> {
    if f.kind == Some(TRACK_TYPE_VIDEO as int) && f.is_vp9 {
        match (f.number, f.dims) {
            (None, _) => Err(WebmError::NoTrackNumber),
            (_, None) => Err(WebmError::NoDimensions),
            (Some(n), Some((w, h))) => Ok(Some((n, w, h))),
        }
    } else {
        Ok(None)
    }
}

/// What a track entry says, after the fields from `pos` on.
pub open spec fn entry_from(d: Seq<u8>, pos: int, end: int, f: TrackFields) -> Result<
    Option<(int, int, int)>,
    WebmError,
>
    decreases end - pos,
{
    if pos >= end {
        track_of(f)
    } else if element_refusal(d, pos, end) is Some {
        Err(element_refusal(d, pos, end)->0)
    } else if content_end(d, pos, end) <= pos {
        Ok(None)
    } else {
        let id = element_id(d, pos);
        let next = content_end(d, pos, end);
        if id == ID_TRACK_NUMBER {
            entry_from(
                d,
                next,
                end,
                TrackFields { number: Some(uint_of(content(d, pos, end))), ..f },
            )
        } else if id == ID_TRACK_TYPE {
            entry_from(d, next, end, TrackFields { kind: Some(uint_of(content(d, pos, end))), ..f })
        } else if id == ID_CODEC_ID {
            entry_from(
                d,
                next,
                end,
                TrackFields { is_vp9: content(d, pos, end) == VP9_CODEC_ID@, ..f },
            )
        } else if id == ID_VIDEO {
            match video_from(d, content_start(d, pos), next, None, None) {
                Ok(dims) => entry_from(d, next, end, TrackFields { dims: Some(dims), ..f }),
                Err(e) => Err(e),
            }
        } else {
            entry_from(d, next, end, f)
        }
    }
}

/// Whether the bytes are the codec id of VP9.
fn is_vp9_codec(buf: &[u8], start: usize, end: usize) -> (b: bool)
    requires
        start <= end <= buf.len(),
    ensures
        b == (buf@.subrange(start as int, end as int) == VP9_CODEC_ID@),
{
    let ghost s = buf@.subrange(start as int, end as int);
    let name: [u8; 5] = VP9_CODEC_ID;
    assert(name@.len() == 5);
    if end - start != 5 {
        return false;
    }
    for i in 0..5usize
        invariant
            end - start == 5,
            end <= buf.len(),
            name@ == VP9_CODEC_ID@,
            s == buf@.subrange(start as int, end as int),
            forall|k: int| 0 <= k < i ==> #[trigger] s[k] == name@[k],
    {
        if buf[start + i] != name[i] {
            assert(s[i as int] != VP9_CODEC_ID@[i as int]);
            return false;
        }
        assert(s[i as int] == name@[i as int]);
    }
    assert(s =~= VP9_CODEC_ID@);
    true
}

/// The fields that have been read.
struct FieldsRead {
    number: Option<u64>,
    kind: Option<u64>,
    is_vp9: bool,
    dims: Option<(u16, u16)>,
}

impl FieldsRead {
    spec fn fields(&self) -> TrackFields {
        TrackFields {
            number: opt(self.number),
            kind: opt(self.kind),
            is_vp9: self.is_vp9,
            dims: match self.dims {
                Some((w, h)) => Some((w as int, h as int)),
                None => None,
            },
        }
    }
}

/// Reads a track entry; gives the track where it is a VP9 video track.
fn parse_track_entry(buf: &[u8], start: usize, end: usize) -> (res: Result<
    Option<Vp9Track>,
    WebmError,
>)
    requires
        start <= end <= buf.len(),
    ensures
        match (res, entry_from(buf@, start as int, end as int, no_fields())) {
            (Ok(Some(t)), Ok(Some((n, w, h)))) => t.number == n && t.width == w && t.height == h,
            (Ok(None), Ok(None)) => true,
            (Err(a), Err(b)) => a == b,
            _ => false,
        },
{
    let mut f = FieldsRead { number: None, kind: None, is_vp9: false, dims: None };
    let mut pos: usize = start;
    while pos < end
        invariant
            start <= pos <= end <= buf.len(),
            entry_from(buf@, pos as int, end as int, f.fields()) == entry_from(
                buf@,
                start as int,
                end as int,
                no_fields(),
            ),
        decreases end - pos,
    {
        let elem: Element = match read_header(buf, pos, end) {
            Ok(e) => e,
            Err(e) => {
                return Err(e);
            },
        };
        if elem.id == ID_TRACK_NUMBER {
            f.number = Some(read_uint(buf, elem.start, elem.end));
        } else if elem.id == ID_TRACK_TYPE {
            f.kind = Some(read_uint(buf, elem.start, elem.end));
        } else if elem.id == ID_CODEC_ID {
            f.is_vp9 = is_vp9_codec(buf, elem.start, elem.end);
        } else if elem.id == ID_VIDEO {
            match parse_video(buf, elem.start, elem.end) {
                Ok(dims) => {
                    f.dims = Some(dims);
                },
                Err(e) => {
                    return Err(e);
                },
            }
        }
        pos = elem.end;
    }
    let video: bool = match f.kind {
        Some(kind) => kind == TRACK_TYPE_VIDEO,
        None => false,
    };
    if video && f.is_vp9 {
        match (f.number, f.dims) {
            (None, _) => Err(WebmError::NoTrackNumber),
            (_, None) => Err(WebmError::NoDimensions),
            (Some(number), Some((width, height))) => Ok(Some(Vp9Track { number, width, height })),
        }
    } else {
        Ok(None)
    }
}

/// The first VP9 track of a list.
pub open spec fn tracks_from(d: Seq<u8>, pos: int, end: int) -> Result<(int, int, int), WebmError>
    decreases end - pos,
{
    if pos >= end {
        Err(WebmError::NoVp9Track)
    } else if element_refusal(d, pos, end) is Some {
        Err(element_refusal(d, pos, end)->0)
    } else if content_end(d, pos, end) <= pos {
        Err(WebmError::NoVp9Track)
    } else {
        let next = content_end(d, pos, end);
        if element_id(d, pos) == ID_TRACK_ENTRY {
            match entry_from(d, content_start(d, pos), next, no_fields()) {
                Ok(Some(t)) => Ok(t),
                Ok(None) => tracks_from(d, next, end),
                Err(e) => Err(e),
            }
        } else {
            tracks_from(d, next, end)
        }
    }
}

/// The VP9 track of a segment: from the first list of tracks. The elements
/// before it must have a size.
pub open spec fn segment_track_from(d: Seq<u8>, pos: int, end: int) -> Result<
    (int, int, int),
    WebmError,
>
    decreases end - pos,
{
    if pos >= end {
        Err(WebmError::NoTracks)
    } else if element_refusal(d, pos, end) is Some {
        Err(element_refusal(d, pos, end)->0)
    } else if element_id(d, pos) == ID_TRACKS {
        tracks_from(d, content_start(d, pos), content_end(d, pos, end))
    } else if !has_size(d, pos) {
        Err(WebmError::OpenSize)
    } else if content_end(d, pos, end) <= pos {
        Err(WebmError::NoTracks)
    } else {
        segment_track_from(d, content_end(d, pos, end), end)
    }
}

/// The track that is read is the one that is described.
pub open spec fn track_matches(
    res: Result<Vp9Track, WebmError>,
    s: Result<(int, int, int), WebmError>,
) -> bool {
    match (res, s) {
        (Ok(t), Ok((n, w, h))) => t.number == n && t.width == w && t.height == h,
        (Err(a), Err(b)) => a == b,
        _ => false,
    }
}

/// Finds the first VP9 track of a list.
fn parse_tracks(buf: &[u8], start: usize, end: usize) -> (res: Result<Vp9Track, WebmError>)
    requires
        start <= end <= buf.len(),
    ensures
        track_matches(res, tracks_from(buf@, start as int, end as int)),
{
    let mut pos: usize = start;
    while pos < end
        invariant
            start <= pos <= end <= buf.len(),
            tracks_from(buf@, pos as int, end as int) == tracks_from(
                buf@,
                start as int,
                end as int,
            ),
        decreases end - pos,
    {
        let elem: Element = match read_header(buf, pos, end) {
            Ok(e) => e,
            Err(e) => {
                return Err(e);
            },
        };
        if elem.id == ID_TRACK_ENTRY {
            match parse_track_entry(buf, elem.start, elem.end) {
                Ok(Some(track)) => {
                    return Ok(track);
                },
                Ok(None) => {},
                Err(e) => {
                    return Err(e);
                },
            }
        }
        pos = elem.end;
    }
    Err(WebmError::NoVp9Track)
}

/// Finds the VP9 track of a segment.
pub fn find_vp9_track(buf: &[u8], start: usize, end: usize) -> (res: Result<Vp9Track, WebmError>)
    requires
        start <= end <= buf.len(),
    ensures
        track_matches(res, segment_track_from(buf@, start as int, end as int)),
{
    let mut pos: usize = start;
    while pos < end
        invariant
            start <= pos <= end <= buf.len(),
            segment_track_from(buf@, pos as int, end as int) == segment_track_from(
                buf@,
                start as int,
                end as int,
            ),
        decreases end - pos,
    {
        let elem: Element = match read_header(buf, pos, end) {
            Ok(e) => e,
            Err(e) => {
                return Err(e);
            },
        };
        if elem.id == ID_TRACKS {
            return parse_tracks(buf, elem.start, elem.end);
        }
        if !elem.size_known {
            return Err(WebmError::OpenSize);
        }
        pos = elem.end;
    }
    Err(WebmError::NoTracks)
}

// ---------------------------------------------------------------------------
// Frames.
// ---------------------------------------------------------------------------

/// The frame of a block, where it belongs to the track: what follows the number
/// of the track, two bytes of time and a byte of flags.
pub open spec fn block_frame(d: Seq<u8>, start: int, end: int, track: int) -> Result<
    Option<Seq<u8>>,
    WebmError,
> {
    let flags = number_end(d, start) + 2;
    if number_refusal(d, start, end) is Some {
        Err(number_refusal(d, start, end)->0)
    } else if number_at(d, start) != track {
        Ok(None)
    } else if flags >= end {
        Err(WebmError::TruncatedBlock)
    } else if d[flags] as int / 2 % 4 != 0 {
        Err(WebmError::LacedBlock)
    } else {
        Ok(Some(d.subrange(flags + 1, end)))
    }
}

/// The frames so far, with that of a block behind them.
pub open spec fn with_frame(frames: Seq<Seq<u8>>, frame: Option<Seq<u8>>) -> Seq<Seq<u8>> {
    match frame {
        Some(f) => frames.push(f),
        None => frames,
    }
}

/// The frames so far, with those of a group of blocks from `pos` on.
pub open spec fn group_from(
    d: Seq<u8>,
    pos: int,
    end: int,
    track: int,
    frames: Seq<Seq<u8>>,
) -> Result<
    Seq<Seq<u8>>,
    WebmError,
>
    decreases end - pos,
{
    if pos >= end {
        Ok(frames)
    } else if element_refusal(d, pos, end) is Some {
        Err(element_refusal(d, pos, end)->0)
    } else if content_end(d, pos, end) <= pos {
        Ok(frames)
    } else {
        let next = content_end(d, pos, end);
        if element_id(d, pos) == ID_BLOCK {
            match block_frame(d, content_start(d, pos), next, track) {
                Ok(f) => group_from(d, next, end, track, with_frame(frames, f)),
                Err(e) => Err(e),
            }
        } else {
            group_from(d, next, end, track, frames)
        }
    }
}

/// The frames so far, with those of a cluster from `pos` on.
pub open spec fn cluster_from(
    d: Seq<u8>,
    pos: int,
    end: int,
    track: int,
    frames: Seq<Seq<u8>>,
) -> Result<
    Seq<Seq<u8>>,
    WebmError,
>
    decreases end - pos,
{
    if pos >= end {
        Ok(frames)
    } else if element_refusal(d, pos, end) is Some {
        Err(element_refusal(d, pos, end)->0)
    } else if content_end(d, pos, end) <= pos {
        Ok(frames)
    } else {
        let next = content_end(d, pos, end);
        if element_id(d, pos) == ID_SIMPLE_BLOCK {
            match block_frame(d, content_start(d, pos), next, track) {
                Ok(f) => cluster_from(d, next, end, track, with_frame(frames, f)),
                Err(e) => Err(e),
            }
        } else if element_id(d, pos) == ID_BLOCK_GROUP {
            match group_from(d, content_start(d, pos), next, track, frames) {
                Ok(f) => cluster_from(d, next, end, track, f),
                Err(e) => Err(e),
            }
        } else {
            cluster_from(d, next, end, track, frames)
        }
    }
}

/// The id is that of an element next to clusters.
pub open spec fn is_segment_level(id: int) -> bool {
    exists|i: int| 0 <= i < 9 && #[trigger] SEGMENT_LEVEL_IDS[i] == id
}

/// Where a cluster of open size ends: before the next element that stands next
/// to clusters.
pub open spec fn open_end_from(d: Seq<u8>, pos: int, end: int) -> Result<int, WebmError>
    decreases end - pos,
{
    if pos >= end {
        Ok(end)
    } else if element_refusal(d, pos, end) is Some {
        Err(element_refusal(d, pos, end)->0)
    } else if is_segment_level(element_id(d, pos)) {
        Ok(pos)
    } else if !has_size(d, pos) {
        Err(WebmError::OpenSize)
    } else if content_end(d, pos, end) <= pos {
        Ok(end)
    } else {
        open_end_from(d, content_end(d, pos, end), end)
    }
}

/// The end of the cluster at a position.
pub open spec fn cluster_end(d: Seq<u8>, pos: int, end: int) -> Result<int, WebmError> {
    if has_size(d, pos) {
        Ok(content_end(d, pos, end))
    } else {
        open_end_from(d, content_start(d, pos), end)
    }
}

/// The frames so far, with those of a segment from `pos` on. Only clusters may
/// have an open size.
pub open spec fn frames_from(
    d: Seq<u8>,
    pos: int,
    end: int,
    track: int,
    frames: Seq<Seq<u8>>,
) -> Result<
    Seq<Seq<u8>>,
    WebmError,
>
    decreases end - pos,
{
    if pos >= end {
        Ok(frames)
    } else if element_refusal(d, pos, end) is Some {
        Err(element_refusal(d, pos, end)->0)
    } else if element_id(d, pos) == ID_CLUSTER {
        match cluster_end(d, pos, end) {
            Ok(e) => match cluster_from(d, content_start(d, pos), e, track, frames) {
                Ok(f) => if e <= pos || e > end {
                    Ok(f)
                } else {
                    frames_from(d, e, end, track, f)
                },
                Err(e) => Err(e),
            },
            Err(e) => Err(e),
        }
    } else if !has_size(d, pos) {
        Err(WebmError::OpenSize)
    } else if content_end(d, pos, end) <= pos {
        Ok(frames)
    } else {
        frames_from(d, content_end(d, pos, end), end, track, frames)
    }
}

/// The frames that are read are those that are described.
pub open spec fn frames_match(
    res: Result<(), WebmError>,
    frames: Seq<Vec<u8>>,
    s: Result<Seq<Seq<u8>>, WebmError>,
) -> bool {
    match (res, s) {
        (Ok(_), Ok(f)) => contents(frames) == f,
        (Err(a), Err(b)) => a == b,
        _ => false,
    }
}

/// Adds the frame of a block to the frames, where it belongs to the track.
fn push_block(
    buf: &[u8],
    start: usize,
    end: usize,
    track: u64,
    frames: &mut Vec<Vec<u8>>,
) -> (res: Result<(), WebmError>)
    requires
        start <= end <= buf.len(),
    ensures
        match (res, block_frame(buf@, start as int, end as int, track as int)) {
            (Ok(_), Ok(f)) => contents(final(frames)@) == with_frame(contents(old(frames)@), f),
            (Err(a), Err(b)) => a == b,
            _ => false,
        },
{
    let (number, after) = match read_number(buf, start, end) {
        Ok(r) => r,
        Err(e) => {
            return Err(e);
        },
    };
    if number != track {
        return Ok(());
    }
    if end - after <= 2 {
        return Err(WebmError::TruncatedBlock);
    }
    let flags: usize = after + 2;
    if buf[flags] / 2 % 4 != 0 {
        return Err(WebmError::LacedBlock);
    }
    let payload: &[u8] = vstd::slice::slice_subrange(buf, flags + 1, end);
    let mut frame: Vec<u8> = Vec::new();
    push_bytes(&mut frame, payload);
    assert(frame@ =~= payload@);
    frames.push(frame);
    assert(contents(frames@) =~= contents(old(frames)@).push(payload@));
    Ok(())
}

/// Adds the frames of a group of blocks.
fn parse_group(
    buf: &[u8],
    start: usize,
    end: usize,
    track: u64,
    frames: &mut Vec<Vec<u8>>,
) -> (res: Result<(), WebmError>)
    requires
        start <= end <= buf.len(),
    ensures
        frames_match(
            res,
            final(frames)@,
            group_from(buf@, start as int, end as int, track as int, contents(old(frames)@)),
        ),
{
    let mut pos: usize = start;
    let ghost whole = group_from(
        buf@,
        start as int,
        end as int,
        track as int,
        contents(frames@),
    );
    while pos < end
        invariant
            start <= pos <= end <= buf.len(),
            whole == group_from(
                buf@,
                start as int,
                end as int,
                track as int,
                contents(old(frames)@),
            ),
            whole == group_from(buf@, pos as int, end as int, track as int, contents(frames@)),
        decreases end - pos,
    {
        let elem: Element = match read_header(buf, pos, end) {
            Ok(e) => e,
            Err(e) => {
                return Err(e);
            },
        };
        if elem.id == ID_BLOCK {
            match push_block(buf, elem.start, elem.end, track, frames) {
                Ok(_) => {},
                Err(e) => {
                    return Err(e);
                },
            }
        }
        pos = elem.end;
    }
    Ok(())
}

/// Adds the frames of a cluster.
fn parse_cluster(
    buf: &[u8],
    start: usize,
    end: usize,
    track: u64,
    frames: &mut Vec<Vec<u8>>,
) -> (res: Result<(), WebmError>)
    requires
        start <= end <= buf.len(),
    ensures
        frames_match(
            res,
            final(frames)@,
            cluster_from(buf@, start as int, end as int, track as int, contents(old(frames)@)),
        ),
{
    let mut pos: usize = start;
    let ghost whole = cluster_from(
        buf@,
        start as int,
        end as int,
        track as int,
        contents(frames@),
    );
    while pos < end
        invariant
            start <= pos <= end <= buf.len(),
            whole == cluster_from(
                buf@,
                start as int,
                end as int,
                track as int,
                contents(old(frames)@),
            ),
            whole == cluster_from(buf@, pos as int, end as int, track as int, contents(frames@)),
        decreases end - pos,
    {
        let elem: Element = match read_header(buf, pos, end) {
            Ok(e) => e,
            Err(e) => {
                return Err(e);
            },
        };
        if elem.id == ID_SIMPLE_BLOCK {
            match push_block(buf, elem.start, elem.end, track, frames) {
                Ok(_) => {},
                Err(e) => {
                    return Err(e);
                },
            }
        } else if elem.id == ID_BLOCK_GROUP {
            match parse_group(buf, elem.start, elem.end, track, frames) {
                Ok(_) => {},
                Err(e) => {
                    return Err(e);
                },
            }
        }
        pos = elem.end;
    }
    Ok(())
}

/// Whether the id is that of an element next to clusters.
fn at_segment_level(id: u64) -> (b: bool)
    ensures
        b == is_segment_level(id as int),
{
    let ids: [u64; 9] = SEGMENT_LEVEL_IDS;
    for i in 0..9usize
        invariant
            ids == SEGMENT_LEVEL_IDS,
            forall|k: int| 0 <= k < i ==> #[trigger] SEGMENT_LEVEL_IDS[k] != id,
    {
        if ids[i] == id {
            assert(SEGMENT_LEVEL_IDS[i as int] == id);
            return true;
        }
    }
    false
}

/// Finds where a cluster of open size ends.
fn find_unknown_master_end(buf: &[u8], start: usize, end: usize) -> (res: Result<usize, WebmError>)
    requires
        start <= end <= buf.len(),
    ensures
        match (res, open_end_from(buf@, start as int, end as int)) {
            (Ok(a), Ok(b)) => a == b && start <= a <= end,
            (Err(a), Err(b)) => a == b,
            _ => false,
        },
{
    let mut pos: usize = start;
    while pos < end
        invariant
            start <= pos <= end <= buf.len(),
            open_end_from(buf@, pos as int, end as int) == open_end_from(
                buf@,
                start as int,
                end as int,
            ),
        decreases end - pos,
    {
        let elem: Element = match read_header(buf, pos, end) {
            Ok(e) => e,
            Err(e) => {
                return Err(e);
            },
        };
        if at_segment_level(elem.id) {
            return Ok(pos);
        }
        if !elem.size_known {
            return Err(WebmError::OpenSize);
        }
        pos = elem.end;
    }
    Ok(end)
}

/// Takes the frames of a track out of a segment.
pub fn collect_frames(buf: &[u8], start: usize, end: usize, track: u64) -> (res: Result<
    Vec<Vec<u8>>,
    WebmError,
>)
    requires
        start <= end <= buf.len(),
    ensures
        match (
            res,
            frames_from(buf@, start as int, end as int, track as int, Seq::empty()),
        ) {
            (Ok(v), Ok(f)) => contents(v@) == f,
            (Err(a), Err(b)) => a == b,
            _ => false,
        },
{
    let mut frames: Vec<Vec<u8>> = Vec::new();
    let mut pos: usize = start;
    let ghost whole = frames_from(
        buf@,
        start as int,
        end as int,
        track as int,
        Seq::<Seq<u8>>::empty(),
    );
    assert(contents(frames@) =~= Seq::<Seq<u8>>::empty());
    while pos < end
        invariant
            start <= pos <= end <= buf.len(),
            whole == frames_from(
                buf@,
                start as int,
                end as int,
                track as int,
                Seq::<Seq<u8>>::empty(),
            ),
            whole == frames_from(buf@, pos as int, end as int, track as int, contents(frames@)),
        decreases end - pos,
    {
        let elem: Element = match read_header(buf, pos, end) {
            Ok(e) => e,
            Err(e) => {
                return Err(e);
            },
        };
        if elem.id == ID_CLUSTER {
            let stop: usize = if elem.size_known {
                elem.end
            } else {
                match find_unknown_master_end(buf, elem.start, end) {
                    Ok(stop) => stop,
                    Err(e) => {
                        return Err(e);
                    },
                }
            };
            match parse_cluster(buf, elem.start, stop, track, &mut frames) {
                Ok(_) => {},
                Err(e) => {
                    return Err(e);
                },
            }
            pos = stop;
        } else if elem.size_known {
            pos = elem.end;
        } else {
            return Err(WebmError::OpenSize);
        }
    }
    Ok(frames)
}

/// The size and the frames of the VP9 track of a file.
pub open spec fn demuxed(d: Seq<u8>) -> Result<(int, int, Seq<Seq<u8>>), WebmError> {
    match segment_from(d, 0) {
        Err(e) => Err(e),
        Ok((start, end)) => match segment_track_from(d, start, end) {
            Err(e) => Err(e),
            Ok((number, w, h)) => match frames_from(d, start, end, number, Seq::empty()) {
                Err(e) => Err(e),
                Ok(frames) => Ok((w, h, frames)),
            },
        },
    }
}

/// Turns the VP9 track of a WebM file into an IVF file, frame by frame.
pub fn webm_to_ivf(buf: &[u8]) -> (res: Result<Vec<u8>, WebmError>)
    ensures
        match (res, demuxed(buf@)) {
            (Ok(out), Ok((w, h, frames))) => out@ == header_bytes(
                seq![86u8, 80u8, 57u8, 48u8],
                w,
                h,
                1,
                1,
                frames.len() as int,
            ) + frame_records(frames, 0),
            (Err(a), Err(b)) => a == b,
            _ => false,
        },
{
    let (start, end) = match find_segment(buf) {
        Ok(r) => r,
        Err(e) => {
            return Err(e);
        },
    };
    let track: Vp9Track = match find_vp9_track(buf, start, end) {
        Ok(t) => t,
        Err(e) => {
            return Err(e);
        },
    };
    let frames: Vec<Vec<u8>> = match collect_frames(buf, start, end, track.number) {
        Ok(f) => f,
        Err(e) => {
            return Err(e);
        },
    };
    let fourcc: [u8; 4] = [86, 80, 57, 48];
    assert(fourcc@ =~= seq![86u8, 80u8, 57u8, 48u8]);
    Ok(write_ivf(&fourcc, track.width, track.height, 1, 1, frames.as_slice()))
}

} // verus!
