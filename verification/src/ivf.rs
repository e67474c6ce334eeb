//! The IVF container: a 32-byte file header, then for each frame a 12-byte
//! header and the frame's bytes. All integers are little-endian.
//!
//! File header:
//!
//! | Offset | Size | Contents |
//! | --- | --- | --- |
//! | 0  | 4 | Signature `"DKIF"` |
//! | 4  | 2 | Version (0) |
//! | 6  | 2 | Header length in bytes (32) |
//! | 8  | 4 | Codec FourCC (`"VP90"` for VP9) |
//! | 12 | 2 | Width in pixels |
//! | 14 | 2 | Height in pixels |
//! | 16 | 4 | Timebase denominator |
//! | 20 | 4 | Timebase numerator |
//! | 24 | 4 | Frame count |
//! | 28 | 4 | Unused |
//!
//! Frame header: the size of the frame's bytes (4 bytes), then a presentation
//! timestamp (8 bytes).

use vstd::prelude::*;
use crate::common::{
    le_bytes, le_value, lemma_le_bytes_len, lemma_le_round_trip, push_bytes, push_le,
};

verus! {

/// Size of the file header in bytes.
pub const IVF_FILE_HEADER_SIZE: usize = 32;

/// Size of a frame header in bytes.
pub const IVF_FRAME_HEADER_SIZE: usize = 12;

/// The signature at the start of a file, `"DKIF"`.
pub const IVF_SIGNATURE: [u8; 4] = [0x44, 0x4b, 0x49, 0x46];

/// Errors that can occur while reading a file.
#[derive(Debug, Clone, Copy, PartialEq, Eq, Structural)]
pub enum IvfError {
    /// The buffer is shorter than the file header.
    TooShortForFileHeader,
    /// The first 4 bytes are not `"DKIF"`.
    BadSignature,
    /// The header length is below 32 or beyond the end of the buffer.
    InvalidHeaderLength,
    /// Not enough bytes remain for a frame header.
    TruncatedFrameHeader,
    /// Not as many bytes remain as the frame header claims.
    TruncatedFrameData,
}

/// Contents of the file header.
#[derive(Debug, Clone, PartialEq, Eq)]
pub struct IvfHeader {
    /// Format version (usually 0).
    pub version: u16,
    /// Header length in bytes, usually 32.
    pub header_length: u16,
    /// Codec FourCC.
    pub fourcc: [u8; 4],
    /// Frame width in pixels.
    pub width: u16,
    /// Frame height in pixels.
    pub height: u16,
    /// Timebase denominator.
    pub timebase_denominator: u32,
    /// Timebase numerator.
    pub timebase_numerator: u32,
    /// Number of frames that the file claims to hold.
    pub frame_count: u32,
}

/// One frame of a file.
#[derive(Debug, Clone, Copy, PartialEq, Eq)]
pub struct IvfFrame<'a> {
    /// Presentation timestamp in timebase units.
    pub timestamp: u64,
    /// The frame's bytes (a frame or a superframe).
    pub data: &'a [u8],
}

/// The little-endian integer in `n` bytes at `offset`.
pub open spec fn le_at(s: Seq<u8>, offset: int, n: int) -> int {
    le_value(s.subrange(offset, offset + n))
}

/// Whether the bytes start with the signature.
pub open spec fn signature_ok(s: Seq<u8>) -> bool {
    s.subrange(0, 4) == IVF_SIGNATURE@
}

/// Whether the header length of the bytes is usable.
pub open spec fn header_length_ok(s: Seq<u8>) -> bool {
    32 <= le_at(s, 6, 2) <= s.len()
}

impl IvfHeader {
    /// The header holds what the bytes say.
    pub open spec fn describes(&self, s: Seq<u8>) -> bool {
        &&& self.version == le_at(s, 4, 2)
        &&& self.header_length == le_at(s, 6, 2)
        &&& self.fourcc@ == s.subrange(8, 12)
        &&& self.width == le_at(s, 12, 2)
        &&& self.height == le_at(s, 14, 2)
        &&& self.timebase_denominator == le_at(s, 16, 4)
        &&& self.timebase_numerator == le_at(s, 20, 4)
        &&& self.frame_count == le_at(s, 24, 4)
    }
}

/// What reading the next frame gives: nothing at the end, an error, or a
/// timestamp and the frame's bytes.
pub open spec fn next_frame(rest: Seq<u8>) -> Option<Result<(int, Seq<u8>), IvfError>> {
    if rest.len() == 0 {
        None
    } else if rest.len() < 12 {
        Some(Err(IvfError::TruncatedFrameHeader))
    } else if rest.len() < 12 + le_at(rest, 0, 4) {
        Some(Err(IvfError::TruncatedFrameData))
    } else {
        Some(Ok((le_at(rest, 4, 8), rest.subrange(12, 12 + le_at(rest, 0, 4)))))
    }
}

/// What is left to read afterwards: nothing after an error.
pub open spec fn rest_after(rest: Seq<u8>) -> Seq<u8> {
    match next_frame(rest) {
        Some(Ok(frame)) => rest.skip(12 + frame.1.len() as int),
        _ => Seq::empty(),
    }
}

/// The bytes of one frame with its header.
pub open spec fn frame_record(index: int, frame: Seq<u8>) -> Seq<u8> {
    le_bytes(frame.len() as int, 4) + le_bytes(index, 8) + frame
}

/// The bytes of the frames from `from` on, each stamped with its index.
pub open spec fn frame_records(frames: Seq<Seq<u8>>, from: int) -> Seq<u8>
    decreases frames.len() - from,
{
    if from < 0 || from >= frames.len() {
        Seq::empty()
    } else {
        frame_record(from, frames[from]) + frame_records(frames, from + 1)
    }
}

/// The bytes of a file header.
pub open spec fn header_bytes(
    fourcc: Seq<u8>,
    width: int,
    height: int,
    den: int,
    num: int,
    count: int,
) -> Seq<u8> {
    IVF_SIGNATURE@ + le_bytes(0, 2) + le_bytes(32, 2) + fourcc + le_bytes(width, 2) + le_bytes(
        height,
        2,
    ) + le_bytes(den, 4) + le_bytes(num, 4) + le_bytes(count, 4) + le_bytes(0, 4)
}

/// The contents of the frames.
pub open spec fn contents(frames: Seq<Vec<u8>>) -> Seq<Seq<u8>> {
    frames.map_values(|f: Vec<u8>| f@)
}

/// Reads a file frame by frame, in order.
#[derive(Debug, Clone)]
pub struct IvfReader<'a> {
    pub header: IvfHeader,
    /// The bytes not read yet.
    pub remaining: &'a [u8],
}

impl<'a> IvfReader<'a> {
    /// Reads the file header.
    pub fn new(buf: &'a [u8]) -> (r: Result<Self, IvfError>)
        ensures
            match r {
                Ok(reader) => {
                    &&& buf.len() >= 32
                    &&& signature_ok(buf@)
                    &&& header_length_ok(buf@)
                    &&& reader.header.describes(buf@)
                    &&& reader.remaining@ == buf@.skip(le_at(buf@, 6, 2))
                },
                Err(IvfError::TooShortForFileHeader) => buf.len() < 32,
                Err(IvfError::BadSignature) => buf.len() >= 32 && !signature_ok(buf@),
                Err(IvfError::InvalidHeaderLength) => {
                    &&& buf.len() >= 32
                    &&& signature_ok(buf@)
                    &&& !header_length_ok(buf@)
                },
                Err(_) => false,
            },
    {
        if buf.len() < IVF_FILE_HEADER_SIZE {
            return Err(IvfError::TooShortForFileHeader);
        }
        if buf[0] != IVF_SIGNATURE[0] || buf[1] != IVF_SIGNATURE[1] || buf[2] != IVF_SIGNATURE[2]
            || buf[3] != IVF_SIGNATURE[3] {
            proof {
                let s = buf@.subrange(0, 4);
                assert(s[0] == buf[0] && s[1] == buf[1] && s[2] == buf[2] && s[3] == buf[3]);
            }
            return Err(IvfError::BadSignature);
        }
        assert(buf@.subrange(0, 4) =~= IVF_SIGNATURE@);
        let version: u16 = read_u16_le(buf, 4);
        let header_length: u16 = read_u16_le(buf, 6);
        let fourcc: [u8; 4] = [buf[8], buf[9], buf[10], buf[11]];
        assert(fourcc@ =~= buf@.subrange(8, 12));
        let width: u16 = read_u16_le(buf, 12);
        let height: u16 = read_u16_le(buf, 14);
        let timebase_denominator: u32 = read_u32_le(buf, 16);
        let timebase_numerator: u32 = read_u32_le(buf, 20);
        let frame_count: u32 = read_u32_le(buf, 24);
        let start: usize = header_length as usize;
        if start < IVF_FILE_HEADER_SIZE || start > buf.len() {
            return Err(IvfError::InvalidHeaderLength);
        }
        let header = IvfHeader {
            version,
            header_length,
            fourcc,
            width,
            height,
            timebase_denominator,
            timebase_numerator,
            frame_count,
        };
        Ok(IvfReader { header, remaining: &buf[start..buf.len()] })
    }

    /// The file header.
    pub fn header(&self) -> (h: &IvfHeader)
        ensures
            *h == self.header,
    {
        &self.header
    }

    /// Reads the next frame. `None` at the end of the file; after an error
    /// nothing remains to be read.
    pub fn next(&mut self) -> (r: Option<Result<IvfFrame<'a>, IvfError>>)
        ensures
            match (r, next_frame(old(self).remaining@)) {
                (None, None) => true,
                (Some(Err(e)), Some(Err(e2))) => e == e2,
                (Some(Ok(f)), Some(Ok(f2))) => f.timestamp == f2.0 && f.data@ == f2.1,
                _ => false,
            },
            final(self).remaining@ == rest_after(old(self).remaining@),
            final(self).header == old(self).header,
    {
        let rest: &'a [u8] = self.remaining;
        let len: usize = rest.len();
        if len == 0 {
            assert(rest@ =~= Seq::<u8>::empty());
            return None;
        }
        if len < IVF_FRAME_HEADER_SIZE {
            self.remaining = &rest[len..len];
            assert(rest@.subrange(len as int, len as int) =~= Seq::<u8>::empty());
            return Some(Err(IvfError::TruncatedFrameHeader));
        }
        let frame_size: usize = read_u32_le(rest, 0) as usize;
        let timestamp: u64 = read_u64_le(rest, 4);
        if len - IVF_FRAME_HEADER_SIZE < frame_size {
            self.remaining = &rest[len..len];
            assert(rest@.subrange(len as int, len as int) =~= Seq::<u8>::empty());
            return Some(Err(IvfError::TruncatedFrameData));
        }
        let data_end: usize = IVF_FRAME_HEADER_SIZE + frame_size;
        let data: &'a [u8] = &rest[IVF_FRAME_HEADER_SIZE..data_end];
        self.remaining = &rest[data_end..len];
        Some(Ok(IvfFrame { timestamp, data }))
    }
}

/// Builds a file from frames. Each frame's timestamp is its index.
pub fn write_ivf(
    fourcc: &[u8; 4],
    width: u16,
    height: u16,
    timebase_den: u32,
    timebase_num: u32,
    frames: &[Vec<u8>],
) -> (buf: Vec<u8>)
    ensures
        buf@ == header_bytes(
            fourcc@,
            width as int,
            height as int,
            timebase_den as int,
            timebase_num as int,
            frames.len() as int,
        ) + frame_records(contents(frames@), 0),
{
    let mut buf: Vec<u8> = Vec::new();
    let signature: [u8; 4] = IVF_SIGNATURE;
    push_bytes(&mut buf, signature.as_slice());
    push_le(&mut buf, 0, 2);
    push_le(&mut buf, 32, 2);
    push_bytes(&mut buf, fourcc.as_slice());
    push_le(&mut buf, width as u128, 2);
    push_le(&mut buf, height as u128, 2);
    push_le(&mut buf, timebase_den as u128, 4);
    push_le(&mut buf, timebase_num as u128, 4);
    push_le(&mut buf, frames.len() as u128, 4);
    push_le(&mut buf, 0, 4);
    let ghost head = header_bytes(
        fourcc@,
        width as int,
        height as int,
        timebase_den as int,
        timebase_num as int,
        frames.len() as int,
    );
    let ghost all = contents(frames@);
    assert(Seq::<u8>::empty() + IVF_SIGNATURE@ =~= IVF_SIGNATURE@);
    assert(buf@ =~= head);
    assert(head + frame_records(all, 0) =~= buf@ + frame_records(all, 0));
    for i in 0..frames.len()
        invariant
            all == contents(frames@),
            head + frame_records(all, 0) == buf@ + frame_records(all, i as int),
    {
        let ghost before = buf@;
        push_le(&mut buf, frames[i].len() as u128, 4);
        push_le(&mut buf, i as u128, 8);
        push_bytes(&mut buf, frames[i].as_slice());
        proof {
            assert(all[i as int] == frames[i as int]@);
            assert(buf@ =~= before + frame_record(i as int, all[i as int]));
            assert(before + frame_records(all, i as int) =~= buf@ + frame_records(all, i + 1));
        }
    }
    assert(buf@ + Seq::<u8>::empty() =~= buf@);
    buf
}

fn read_u16_le(buf: &[u8], offset: usize) -> (v: u16)
    requires
        offset + 2 <= buf.len(),
    ensures
        v == le_at(buf@, offset as int, 2),
{
    proof {
        let s = buf@.subrange(offset as int, offset + 2);
        assert(s.skip(1).skip(1).len() == 0);
        reveal_with_fuel(le_value, 3);
    }
    buf[offset] as u16 + 256 * (buf[offset + 1] as u16)
}

fn read_u32_le(buf: &[u8], offset: usize) -> (v: u32)
    requires
        offset + 4 <= buf.len(),
    ensures
        v == le_at(buf@, offset as int, 4),
{
    proof {
        lemma_le_split(buf@.subrange(offset as int, offset + 4), 2);
        assert(buf@.subrange(offset as int, offset + 4).subrange(0, 2) =~= buf@.subrange(
            offset as int,
            offset + 2,
        ));
        assert(buf@.subrange(offset as int, offset + 4).skip(2) =~= buf@.subrange(
            offset + 2,
            offset + 4,
        ));
        assert(vstd::arithmetic::power::pow(256, 2) == 0x1_0000) by {
            reveal_with_fuel(vstd::arithmetic::power::pow, 3);
        }
    }
    read_u16_le(buf, offset) as u32 + 0x1_0000 * (read_u16_le(buf, offset + 2) as u32)
}

fn read_u64_le(buf: &[u8], offset: usize) -> (v: u64)
    requires
        offset + 8 <= buf.len(),
    ensures
        v == le_at(buf@, offset as int, 8),
{
    proof {
        lemma_le_split(buf@.subrange(offset as int, offset + 8), 4);
        assert(buf@.subrange(offset as int, offset + 8).subrange(0, 4) =~= buf@.subrange(
            offset as int,
            offset + 4,
        ));
        assert(buf@.subrange(offset as int, offset + 8).skip(4) =~= buf@.subrange(
            offset + 4,
            offset + 8,
        ));
        assert(vstd::arithmetic::power::pow(256, 4) == 0x1_0000_0000) by {
            reveal_with_fuel(vstd::arithmetic::power::pow, 5);
        }
    }
    read_u32_le(buf, offset) as u64 + 0x1_0000_0000 * (read_u32_le(buf, offset + 4) as u64)
}

/// A little-endian value is made of those of its two parts.
proof fn lemma_le_split(s: Seq<u8>, k: nat)
    requires
        k <= s.len(),
    ensures
        le_value(s) == le_value(s.subrange(0, k as int)) + vstd::arithmetic::power::pow(256, k)
            * le_value(s.skip(k as int)),
    decreases k,
{
    vstd::arithmetic::power::lemma_pow0(256);
    if k == 0 {
        assert(s.skip(0) =~= s);
        assert(s.subrange(0, 0) =~= Seq::<u8>::empty());
    } else {
        let t = s.skip(1);
        lemma_le_split(t, (k - 1) as nat);
        assert(t.subrange(0, k - 1) =~= s.subrange(0, k as int).skip(1));
        assert(t.skip(k - 1) =~= s.skip(k as int));
        let p = vstd::arithmetic::power::pow(256, (k - 1) as nat);
        let v = le_value(s.skip(k as int));
        assert(vstd::arithmetic::power::pow(256, k) == 256 * p) by {
            reveal(vstd::arithmetic::power::pow);
        }
        assert(256 * (p * v) == (256 * p) * v) by (nonlinear_arith);
    }
}

/// Reading a frame that was written gives it back, with its index as the
/// timestamp, and leaves exactly what follows it.
pub proof fn lemma_read_written_frame(index: int, frame: Seq<u8>, tail: Seq<u8>)
    requires
        0 <= index < 0x1_0000_0000_0000_0000,
        frame.len() < 0x1_0000_0000,
    ensures
        next_frame(frame_record(index, frame) + tail) == Some(
            Ok::<(int, Seq<u8>), IvfError>((index, frame)),
        ),
        rest_after(frame_record(index, frame) + tail) == tail,
{
    let s = frame_record(index, frame) + tail;
    assert(vstd::arithmetic::power::pow(256, 4) == 0x1_0000_0000) by {
        reveal_with_fuel(vstd::arithmetic::power::pow, 5);
    }
    assert(vstd::arithmetic::power::pow(256, 8) == 0x1_0000_0000_0000_0000) by {
        reveal_with_fuel(vstd::arithmetic::power::pow, 9);
    }
    lemma_le_round_trip(frame.len() as int, 4);
    lemma_le_round_trip(index, 8);
    assert(s.subrange(0, 4) =~= le_bytes(frame.len() as int, 4));
    assert(s.subrange(4, 12) =~= le_bytes(index, 8));
    assert(s.subrange(12, 12 + frame.len() as int) =~= frame);
    assert(s.skip(12 + frame.len() as int) =~= tail);
}

/// What reading frame after frame gives, up to the end or the first error.
pub open spec fn read_frames(rest: Seq<u8>, limit: nat) -> Seq<(int, Seq<u8>)>
    decreases limit,
{
    if limit == 0 {
        Seq::empty()
    } else {
        match next_frame(rest) {
            Some(Ok(frame)) => seq![frame] + read_frames(rest_after(rest), (limit - 1) as nat),
            _ => Seq::empty(),
        }
    }
}

/// Reading the frames of a written file gives the frames back, in order, each
/// with its index as the timestamp, and then the end of the file.
pub proof fn lemma_read_written_frames(frames: Seq<Seq<u8>>, from: int)
    requires
        0 <= from <= frames.len() < 0x1_0000_0000_0000_0000,
        forall|i: int| 0 <= i < frames.len() ==> (#[trigger] frames[i]).len() < 0x1_0000_0000,
    ensures
        read_frames(frame_records(frames, from), (frames.len() - from + 1) as nat) == Seq::new(
            (frames.len() - from) as nat,
            |i: int| (from + i, frames[from + i]),
        ),
    decreases frames.len() - from,
{
    let expected = Seq::new((frames.len() - from) as nat, |i: int| (from + i, frames[from + i]));
    let n = (frames.len() - from + 1) as nat;
    if from == frames.len() {
        assert(next_frame(frame_records(frames, from)) is None);
        assert(read_frames(frame_records(frames, from), n) =~= expected);
    } else {
        lemma_read_written_frames(frames, from + 1);
        lemma_read_written_frame(from, frames[from], frame_records(frames, from + 1));
        assert(read_frames(frame_records(frames, from), n) =~= seq![(from, frames[from])]
            + read_frames(frame_records(frames, from + 1), (n - 1) as nat));
        assert(seq![(from, frames[from])] + Seq::new(
            (frames.len() - from - 1) as nat,
            |i: int| (from + 1 + i, frames[from + 1 + i]),
        ) =~= expected);
    }
}

/// The header of a written file is read back field for field, and what remains
/// after it is the frames.
pub proof fn lemma_read_written_header(
    fourcc: Seq<u8>,
    width: u16,
    height: u16,
    den: u32,
    num: u32,
    count: int,
    tail: Seq<u8>,
)
    requires
        fourcc.len() == 4,
        0 <= count < 0x1_0000_0000,
    ensures
        ({
            let s = header_bytes(fourcc, width as int, height as int, den as int, num as int, count)
                + tail;
            &&& s.len() >= 32
            &&& signature_ok(s)
            &&& header_length_ok(s)
            &&& le_at(s, 4, 2) == 0
            &&& le_at(s, 6, 2) == 32
            &&& s.subrange(8, 12) == fourcc
            &&& le_at(s, 12, 2) == width
            &&& le_at(s, 14, 2) == height
            &&& le_at(s, 16, 4) == den
            &&& le_at(s, 20, 4) == num
            &&& le_at(s, 24, 4) == count
            &&& s.skip(32) == tail
        }),
{
    assert(vstd::arithmetic::power::pow(256, 2) == 0x1_0000) by {
        reveal_with_fuel(vstd::arithmetic::power::pow, 3);
    }
    assert(vstd::arithmetic::power::pow(256, 4) == 0x1_0000_0000) by {
        reveal_with_fuel(vstd::arithmetic::power::pow, 5);
    }
    let s = header_bytes(fourcc, width as int, height as int, den as int, num as int, count) + tail;
    lemma_le_round_trip(0, 2);
    lemma_le_round_trip(32, 2);
    lemma_le_round_trip(width as int, 2);
    lemma_le_round_trip(height as int, 2);
    lemma_le_round_trip(den as int, 4);
    lemma_le_round_trip(num as int, 4);
    lemma_le_round_trip(count, 4);
    lemma_le_bytes_len(0, 4);
    assert(s.subrange(0, 4) =~= IVF_SIGNATURE@);
    assert(s.subrange(4, 6) =~= le_bytes(0, 2));
    assert(s.subrange(6, 8) =~= le_bytes(32, 2));
    assert(s.subrange(8, 12) =~= fourcc);
    assert(s.subrange(12, 14) =~= le_bytes(width as int, 2));
    assert(s.subrange(14, 16) =~= le_bytes(height as int, 2));
    assert(s.subrange(16, 20) =~= le_bytes(den as int, 4));
    assert(s.subrange(20, 24) =~= le_bytes(num as int, 4));
    assert(s.subrange(24, 28) =~= le_bytes(count, 4));
    assert(s.skip(32) =~= tail);
}

/// What is left after `k` frames have been read.
pub open spec fn rest_after_frames(rest: Seq<u8>, k: nat) -> Seq<u8>
    decreases k,
{
    if k == 0 {
        rest
    } else {
        rest_after(rest_after_frames(rest, (k - 1) as nat))
    }
}

/// The length of the frames from `from` on, each with its header.
pub open spec fn records_len(frames: Seq<Seq<u8>>, from: int) -> int
    decreases frames.len() - from,
{
    if from < 0 || from >= frames.len() {
        0
    } else {
        12 + frames[from].len() + records_len(frames, from + 1)
    }
}

proof fn lemma_records_len(frames: Seq<Seq<u8>>, from: int)
    requires
        0 <= from,
    ensures
        frame_records(frames, from).len() == records_len(frames, from),
    decreases frames.len() - from,
{
    if from < frames.len() {
        lemma_records_len(frames, from + 1);
        lemma_le_bytes_len(frames[from].len() as int, 4);
        lemma_le_bytes_len(from, 8);
    }
}

proof fn lemma_rest_after_written_frames(frames: Seq<Seq<u8>>, k: nat)
    requires
        k <= frames.len() < 0x1_0000_0000,
        forall|i: int| 0 <= i < frames.len() ==> (#[trigger] frames[i]).len() < 0x1_0000_0000,
    ensures
        rest_after_frames(frame_records(frames, 0), k) == frame_records(frames, k as int),
    decreases k,
{
    if k > 0 {
        lemma_rest_after_written_frames(frames, (k - 1) as nat);
        lemma_read_written_frame(k - 1, frames[k - 1], frame_records(frames, k as int));
    }
}

/// A written file is read back: the header is accepted and holds what was
/// written, and behind it come the frames in order, each with its index as the
/// timestamp, and then the end. The file is as long as its header and frames.
pub proof fn lemma_written_file_reads_back(
    fourcc: Seq<u8>,
    width: u16,
    height: u16,
    den: u32,
    num: u32,
    frames: Seq<Seq<u8>>,
)
    requires
        fourcc.len() == 4,
        frames.len() < 0x1_0000_0000,
        forall|i: int| 0 <= i < frames.len() ==> (#[trigger] frames[i]).len() < 0x1_0000_0000,
    ensures
        ({
            let s = header_bytes(
                fourcc,
                width as int,
                height as int,
                den as int,
                num as int,
                frames.len() as int,
            ) + frame_records(frames, 0);
            &&& s.len() == 32 + records_len(frames, 0)
            &&& s.len() >= 32
            &&& signature_ok(s)
            &&& header_length_ok(s)
            &&& le_at(s, 4, 2) == 0
            &&& le_at(s, 6, 2) == 32
            &&& s.subrange(8, 12) == fourcc
            &&& le_at(s, 12, 2) == width
            &&& le_at(s, 14, 2) == height
            &&& le_at(s, 16, 4) == den
            &&& le_at(s, 20, 4) == num
            &&& le_at(s, 24, 4) == frames.len()
            &&& forall|k: nat|
                k <= frames.len() ==> #[trigger] next_frame(
                    rest_after_frames(s.skip(le_at(s, 6, 2)), k),
                ) == if k < frames.len() {
                    Some(Ok::<(int, Seq<u8>), IvfError>((k as int, frames[k as int])))
                } else {
                    None
                }
        }),
{
    let tail = frame_records(frames, 0);
    let head = header_bytes(
        fourcc,
        width as int,
        height as int,
        den as int,
        num as int,
        frames.len() as int,
    );
    let s = head + tail;
    lemma_read_written_header(fourcc, width, height, den, num, frames.len() as int, tail);
    lemma_records_len(frames, 0);
    assert(s.skip(32).len() == s.len() - 32);
    assert forall|k: nat| k <= frames.len() implies #[trigger] next_frame(
        rest_after_frames(s.skip(le_at(s, 6, 2)), k),
    ) == if k < frames.len() {
        Some(Ok::<(int, Seq<u8>), IvfError>((k as int, frames[k as int])))
    } else {
        None
    } by {
        lemma_rest_after_written_frames(frames, k);
        if k < frames.len() {
            let next = k as int + 1;
            lemma_read_written_frame(k as int, frames[k as int], frame_records(frames, next));
        }
    }
}

} // verus!
