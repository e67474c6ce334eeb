//! Splitting of superframes.
//!
//! One container chunk may pack several frames. A chunk that does ends with an
//! index: a marker byte (top three bits `110`, two bits for the number of bytes
//! per frame size less one, three bits for the number of frames less one), the
//! frame sizes with the least significant byte first, and the marker again.
//! The bytes before the index are the frames, one after the other.

use vstd::prelude::*;
use crate::common::{
    le_bytes, le_value, lemma_le_bytes_len, lemma_le_round_trip, lemma_le_value_bound,
};

verus! {

/// The last byte of the chunk has the form of a marker.
pub open spec fn ends_with_marker(data: Seq<u8>) -> bool {
    data.len() > 0 && data.last() / 32 == 6
}

/// Bytes per frame size that a marker gives.
pub open spec fn size_bytes(marker: u8) -> int {
    (marker as int / 8) % 4 + 1
}

/// Number of frames that a marker gives.
pub open spec fn frame_count(marker: u8) -> int {
    marker as int % 8 + 1
}

/// Size of the index that a marker gives.
pub open spec fn index_size(marker: u8) -> int {
    2 + size_bytes(marker) * frame_count(marker)
}

/// The chunk ends with an index: the marker stands at both ends of it.
pub open spec fn has_index(data: Seq<u8>) -> bool {
    &&& ends_with_marker(data)
    &&& data.len() >= index_size(data.last())
    &&& data[data.len() - index_size(data.last())] == data.last()
}

/// Size of frame `k` as the index lists it.
pub open spec fn listed_size(data: Seq<u8>, k: int) -> int {
    let b = size_bytes(data.last());
    let start = data.len() - index_size(data.last()) + 1 + k * b;
    le_value(data.subrange(start, start + b))
}

/// Where frame `k` starts: the sizes before it, added up.
pub open spec fn frame_start(data: Seq<u8>, k: int) -> int
    decreases k,
{
    if k <= 0 {
        0
    } else {
        frame_start(data, k - 1) + listed_size(data, k - 1)
    }
}

/// Length of what stands before the index.
pub open spec fn payload_len(data: Seq<u8>) -> int {
    data.len() - index_size(data.last())
}

/// A chunk with an index whose frames all fit before it.
pub open spec fn is_superframe(data: Seq<u8>) -> bool {
    has_index(data) && frame_start(data, frame_count(data.last())) <= payload_len(data)
}

/// The frames of a chunk, in decoding order: those of a superframe, or the
/// chunk itself.
pub open spec fn frames_of(data: Seq<u8>) -> Seq<Seq<u8>> {
    if is_superframe(data) {
        Seq::new(
            frame_count(data.last()) as nat,
            |k: int| data.subrange(frame_start(data, k), frame_start(data, k + 1)),
        )
    } else {
        seq![data]
    }
}

/// The starts of the frames never go back.
pub proof fn lemma_frame_start_monotone(data: Seq<u8>, i: int, j: int)
    requires
        i <= j,
    ensures
        0 <= frame_start(data, i) <= frame_start(data, j),
    decreases j, j - i,
{
    if 0 < j {
        let b = size_bytes(data.last());
        let start = data.len() - index_size(data.last()) + 1 + (j - 1) * b;
        lemma_le_value_bound(data.subrange(start, start + b));
        if i < j {
            lemma_frame_start_monotone(data, i, j - 1);
        } else {
            lemma_frame_start_monotone(data, j - 1, j - 1);
        }
    }
}

/// The frames of a superframe, joined up to `k`, are a prefix of the chunk.
pub proof fn lemma_frames_are_a_prefix(data: Seq<u8>, k: int)
    requires
        is_superframe(data),
        0 <= k <= frame_count(data.last()),
    ensures
        0 <= frame_start(data, k) <= data.len(),
        frames_of(data).subrange(0, k).flatten() == data.subrange(0, frame_start(data, k)),
    decreases k,
{
    let n = frame_count(data.last());
    lemma_frame_start_monotone(data, k, n);
    if k == 0 {
        assert(frames_of(data).subrange(0, 0) =~= Seq::<Seq<u8>>::empty());
        assert(data.subrange(0, 0) =~= Seq::<u8>::empty());
    } else {
        lemma_frames_are_a_prefix(data, k - 1);
        lemma_frame_start_monotone(data, k - 1, k);
        let head = frames_of(data).subrange(0, k - 1);
        let whole = frames_of(data).subrange(0, k);
        assert(whole =~= head.push(frames_of(data)[k - 1]));
        whole.lemma_flatten_push(frames_of(data)[k - 1]);
        head.lemma_flatten_push(frames_of(data)[k - 1]);
        assert(head.push(frames_of(data)[k - 1]).flatten() =~= head.flatten()
            + frames_of(data)[k - 1]);
        assert(data.subrange(0, frame_start(data, k - 1)) + data.subrange(
            frame_start(data, k - 1),
            frame_start(data, k),
        ) =~= data.subrange(0, frame_start(data, k)));
    }
}

/// Every chunk has at least one and at most eight frames.
pub proof fn lemma_frame_count_bounds(data: Seq<u8>)
    ensures
        1 <= frames_of(data).len() <= 8,
{
}

/// The first `k` frames, one after the other.
pub open spec fn joined(frames: Seq<Seq<u8>>, k: nat) -> Seq<u8>
    decreases k,
{
    if k == 0 {
        Seq::empty()
    } else {
        joined(frames, (k - 1) as nat) + frames[k - 1]
    }
}

/// The sizes of the first `k` frames in `b` bytes each, least significant first.
pub open spec fn listed(frames: Seq<Seq<u8>>, b: nat, k: nat) -> Seq<u8>
    decreases k,
{
    if k == 0 {
        Seq::empty()
    } else {
        listed(frames, b, (k - 1) as nat) + le_bytes(frames[k - 1].len() as int, b)
    }
}

/// Frames joined to a superframe: behind them stands an index of their sizes
/// between two markers, which hold the number of frames less 1 in the low three
/// bits, the bytes of a size less 1 in the next two and 6 in the highest three.
pub open spec fn joined_superframe(frames: Seq<Seq<u8>>, b: nat) -> Seq<u8> {
    let marker = (0xc0 + 8 * (b - 1) + (frames.len() - 1)) as u8;
    joined(frames, frames.len()) + seq![marker] + listed(frames, b, frames.len()) + seq![marker]
}

/// The length of the first `k` frames.
spec fn joined_len(frames: Seq<Seq<u8>>, k: nat) -> int
    decreases k,
{
    if k == 0 {
        0
    } else {
        joined_len(frames, (k - 1) as nat) + frames[k - 1].len()
    }
}

proof fn lemma_joined(frames: Seq<Seq<u8>>, k: nat, n: nat)
    requires
        k <= n <= frames.len(),
    ensures
        joined(frames, k).len() == joined_len(frames, k),
        joined_len(frames, k) <= joined_len(frames, n),
        joined(frames, n).subrange(0, joined_len(frames, k)) == joined(frames, k),
        k < n ==> joined(frames, n).subrange(
            joined_len(frames, k),
            joined_len(frames, (k + 1) as nat),
        ) == frames[k as int],
        joined(frames, n).len() == joined_len(frames, n),
    decreases n,
{
    if n == 0 {
        assert(joined(frames, 0).subrange(0, 0) =~= joined(frames, 0));
    } else if k == n {
        lemma_joined(frames, (n - 1) as nat, (n - 1) as nat);
        assert(joined(frames, n).subrange(0, joined_len(frames, n)) =~= joined(frames, n));
    } else {
        lemma_joined(frames, k, (n - 1) as nat);
        let head = joined(frames, (n - 1) as nat);
        let whole = joined(frames, n);
        assert(
            whole.subrange(0, joined_len(frames, k)) =~= head.subrange(0, joined_len(frames, k))
        );
        if k + 1 == n {
            assert(joined_len(frames, (k + 1) as nat) == joined_len(frames, n));
            assert(
                whole.subrange(joined_len(frames, k), joined_len(frames, n)) =~= frames[k as int]
            );
        } else {
            lemma_joined(frames, (k + 1) as nat, (n - 1) as nat);
            assert(whole.subrange(joined_len(frames, k), joined_len(frames, (k + 1) as nat))
                =~= head.subrange(joined_len(frames, k), joined_len(frames, (k + 1) as nat)));
        }
    }
}

proof fn lemma_listed(frames: Seq<Seq<u8>>, b: nat, k: nat, n: nat)
    requires
        k < n <= frames.len(),
    ensures
        listed(frames, b, n).len() == n * b,
        listed(frames, b, n).subrange(k as int * b, k as int * b + b) == le_bytes(
            frames[k as int].len() as int,
            b,
        ),
        k * b + b <= n * b,
    decreases n,
{
    lemma_listed_len(frames, b, n);
    lemma_listed_len(frames, b, (n - 1) as nat);
    lemma_le_bytes_len(frames[n - 1].len() as int, b);
    assert((n - 1) * b + b == n * b) by (nonlinear_arith);
    assert(k * b + b <= n * b) by (nonlinear_arith)
        requires
            k + 1 <= n,
            0 <= b,
    ;
    assert(0 <= k * b) by (nonlinear_arith)
        requires
            0 <= k,
            0 <= b,
    ;
    if k + 1 == n {
        assert(listed(frames, b, n).subrange(k as int * b, k as int * b + b) =~= le_bytes(
            frames[k as int].len() as int,
            b,
        ));
    } else {
        lemma_listed(frames, b, k, (n - 1) as nat);
        assert(listed(frames, b, n).subrange(k as int * b, k as int * b + b) =~= listed(
            frames,
            b,
            (n - 1) as nat,
        ).subrange(k as int * b, k as int * b + b));
    }
}

proof fn lemma_listed_len(frames: Seq<Seq<u8>>, b: nat, n: nat)
    requires
        n <= frames.len(),
    ensures
        listed(frames, b, n).len() == n * b,
    decreases n,
{
    if n > 0 {
        lemma_listed_len(frames, b, (n - 1) as nat);
        lemma_le_bytes_len(frames[n - 1].len() as int, b);
        assert((n - 1) * b + b == n * b) by (nonlinear_arith);
    } else {
        assert(0 * b == 0) by (nonlinear_arith);
    }
}

proof fn lemma_starts(data: Seq<u8>, frames: Seq<Seq<u8>>, k: int)
    requires
        0 <= k <= frames.len(),
        forall|i: int| 0 <= i < frames.len() ==> #[trigger] listed_size(data, i) == frames[i].len(),
    ensures
        frame_start(data, k) == joined_len(frames, k as nat),
    decreases k,
{
    if k > 0 {
        lemma_starts(data, frames, k - 1);
        assert(listed_size(data, k - 1) == frames[k - 1].len());
    }
}

/// Joined frames are told apart again: the frames of a superframe are those that
/// it was made of, in order.
pub proof fn lemma_joined_superframe_splits(frames: Seq<Seq<u8>>, b: nat)
    requires
        1 <= frames.len() <= 8,
        1 <= b <= 4,
        forall|i: int|
            0 <= i < frames.len() ==> (#[trigger] frames[i]).len() < vstd::arithmetic::power::pow(
                256,
                b,
            ),
    ensures
        frames_of(joined_superframe(frames, b)) == frames,
{
    let n = frames.len();
    let marker = (0xc0 + 8 * (b - 1) + (n - 1)) as u8;
    let data = joined_superframe(frames, b);
    let body = joined(frames, n);
    let list = listed(frames, b, n);
    assert(data.last() == marker);
    assert(marker as int / 32 == 6);
    assert(size_bytes(marker) == b && frame_count(marker) == n);
    lemma_listed(frames, b, 0, n);
    assert(n * b == b * n) by (nonlinear_arith);
    assert(data.len() == body.len() + 2 + n * b);
    assert(index_size(marker) == 2 + n * b);
    assert(data[body.len() as int] == marker);
    assert(has_index(data));
    assert forall|i: int| 0 <= i < n implies #[trigger] listed_size(data, i) == frames[i].len() by {
        lemma_listed(frames, b, i as nat, n);
        let start = body.len() + 1 + i * b;
        assert(0 <= i * b) by (nonlinear_arith)
            requires
                0 <= i,
                0 <= b,
        ;
        assert(data.subrange(start, start + b) =~= list.subrange(i * b, i * b + b));
        lemma_le_round_trip(frames[i].len() as int, b);
    }
    lemma_starts(data, frames, n as int);
    lemma_joined(frames, n, n);
    assert(is_superframe(data));
    assert forall|k: int| 0 <= k < n implies #[trigger] frames_of(data)[k] == frames[k] by {
        lemma_starts(data, frames, k);
        lemma_starts(data, frames, k + 1);
        lemma_joined(frames, k as nat, n);
        lemma_joined(frames, (k + 1) as nat, n);
        assert(data.subrange(frame_start(data, k), frame_start(data, k + 1)) =~= body.subrange(
            frame_start(data, k),
            frame_start(data, k + 1),
        ));
    }
    assert(frames_of(data) =~= frames);
}

/// A chunk that does not end in a marker, which has 6 in its highest three bits, is
/// one frame; so is one whose index does not start with the marker that ends it.
pub proof fn lemma_chunk_without_index(data: Seq<u8>)
    requires
        data.len() == 0 || !(0xc0 <= data.last() <= 0xdf) || data.len() < 2 + (data.last() as int / 8
            % 4 + 1) * (data.last() as int % 8 + 1) || data[data.len() - 2 - (data.last() as int / 8
            % 4 + 1) * (data.last() as int % 8 + 1)] != data.last(),
    ensures
        frames_of(data) == seq![data],
{
}

/// Splits a container chunk into its frames, in decoding order. A chunk that
/// does not end with a valid index is a single frame.
pub fn split_superframe<'a>(data: &'a [u8]) -> (frames: Vec<&'a [u8]>)
    ensures
        frames.len() == frames_of(data@).len(),
        forall|k: int| 0 <= k < frames.len() ==> #[trigger] frames[k]@ == frames_of(data@)[k],
{
    match parse_superframe_index(data) {
        Some(frames) => frames,
        None => {
            let mut frames: Vec<&'a [u8]> = Vec::new();
            frames.push(data);
            frames
        },
    }
}

/// The frames that a superframe index lists; `None` where there is no index
/// that fits the chunk.
fn parse_superframe_index<'a>(data: &'a [u8]) -> (r: Option<Vec<&'a [u8]>>)
    ensures
        r.is_some() == is_superframe(data@),
        r matches Some(frames) ==> {
            &&& frames.len() == frames_of(data@).len()
            &&& forall|k: int| 0 <= k < frames.len() ==> #[trigger] frames[k]@ == frames_of(data@)[k]
        },
{
    if data.len() == 0 {
        return None;
    }
    let marker: u8 = data[data.len() - 1];
    if marker / 32 != 6 {
        return None;
    }
    let bytes_per_size: usize = ((marker / 8) % 4) as usize + 1;
    let num_frames: usize = (marker % 8) as usize + 1;
    proof {
        assert(1 <= bytes_per_size * num_frames <= 32) by (nonlinear_arith)
            requires
                1 <= bytes_per_size <= 4,
                1 <= num_frames <= 8,
        ;
    }
    let index_len: usize = 2 + bytes_per_size * num_frames;
    if data.len() < index_len {
        return None;
    }
    let index_start: usize = data.len() - index_len;
    if data[index_start] != marker {
        return None;
    }
    let ghost n = num_frames as int;
    let mut frames: Vec<&'a [u8]> = Vec::with_capacity(num_frames);
    let mut offset: usize = 0;
    for k in 0..num_frames
        invariant
            has_index(data@),
            marker == data@.last(),
            bytes_per_size == size_bytes(marker),
            num_frames == frame_count(marker),
            1 <= bytes_per_size <= 4,
            index_len == index_size(marker),
            index_start == data.len() - index_len,
            n == num_frames,
            frames.len() == k,
            offset == frame_start(data@, k as int),
            offset <= index_start,
            forall|i: int|
                0 <= i < k ==> #[trigger] frames[i]@ == data@.subrange(
                    frame_start(data@, i),
                    frame_start(data@, i + 1),
                ),
    {
        proof {
            assert(k * bytes_per_size + bytes_per_size <= num_frames * bytes_per_size)
                by (nonlinear_arith)
                requires
                    0 <= k < num_frames,
                    0 <= bytes_per_size,
            ;
            assert(0 <= k * bytes_per_size) by (nonlinear_arith)
                requires
                    0 <= k,
                    0 <= bytes_per_size,
            ;
            assert(num_frames * bytes_per_size == bytes_per_size * num_frames) by (nonlinear_arith);
        }
        let start: usize = index_start + 1 + k * bytes_per_size;
        let size: usize = read_size(data, start, bytes_per_size);
        proof {
            lemma_frame_start_monotone(data@, k + 1, n);
        }
        if size > index_start - offset {
            return None;
        }
        let end: usize = offset + size;
        frames.push(&data[offset..end]);
        offset = end;
    }
    Some(frames)
}

/// Reads `n` bytes as an unsigned integer, least significant byte first.
fn read_size(data: &[u8], start: usize, n: usize) -> (size: usize)
    requires
        n <= 4,
        start + n <= data.len(),
    ensures
        size == le_value(data@.subrange(start as int, start + n)),
{
    let mut size: usize = 0;
    let mut i: usize = n;
    while i > 0
        invariant
            i <= n <= 4,
            start + n <= data.len(),
            size == le_value(data@.subrange(start + i, start + n)),
            i == 4 ==> size == 0,
            i == 3 ==> size < 0x100,
            i == 2 ==> size < 0x1_0000,
            i == 1 ==> size < 0x100_0000,
        decreases i,
    {
        i -= 1;
        proof {
            let s = data@.subrange(start + i, start + n);
            assert(s.skip(1) =~= data@.subrange(start + i + 1, start + n));
        }
        size = size * 256 + data[start + i] as usize;
    }
    size
}

} // verus!
