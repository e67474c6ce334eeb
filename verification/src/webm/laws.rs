//! Clusters and track entries that were written are read back.

use vstd::arithmetic::power::pow;
use vstd::prelude::*;
use super::{
    big_endian, block_frame, cluster_from, content, content_end, content_start, element_id, element_refusal,
    entry_from, has_size, no_fields, number_at, number_end, track_of, uint_of, video_from,
    with_frame, TrackFields, WebmError,
};

verus! {

/// The `n` low bytes of a number, most significant first.
pub open spec fn be_bytes(v: int, n: nat) -> Seq<u8>
    decreases n,
{
    if n == 0 {
        Seq::empty()
    } else {
        be_bytes(v / 256, (n - 1) as nat).push((v % 256) as u8)
    }
}

proof fn lemma_be_round_trip(v: int, n: nat)
    requires
        0 <= v < pow(256, n),
    ensures
        be_bytes(v, n).len() == n,
        big_endian(be_bytes(v, n)) == v,
    decreases n,
{
    vstd::arithmetic::power::lemma_pow0(256);
    if n > 0 {
        assert(pow(256, n) == 256 * pow(256, (n - 1) as nat)) by {
            reveal(pow);
        }
        lemma_be_round_trip(v / 256, (n - 1) as nat);
        assert(be_bytes(v, n).drop_last() =~= be_bytes(v / 256, (n - 1) as nat));
    }
}

proof fn lemma_leading_zero(s: Seq<u8>)
    ensures
        big_endian(seq![0u8] + s) == big_endian(s),
    decreases s.len(),
{
    let t = seq![0u8] + s;
    if s.len() == 0 {
        assert(t.drop_last() =~= Seq::<u8>::empty());
        assert(big_endian(t.drop_last()) == 0);
    } else {
        lemma_leading_zero(s.drop_last());
        assert(t.drop_last() =~= seq![0u8] + s.drop_last());
    }
}

/// A block of a track: its number in one byte, two bytes of time, flags without
/// lacing, and the frame.
pub struct Block {
    pub track: int,
    pub time: (u8, u8),
    pub flags: u8,
    pub frame: Seq<u8>,
}

/// The block can be written so.
pub open spec fn block_ok(b: Block) -> bool {
    &&& 0 <= b.track <= 126
    &&& b.flags as int / 2 % 4 == 0
    &&& b.frame.len() < 0x1_0000_0000
}

/// The bytes of a block.
pub open spec fn block_bytes(b: Block) -> Seq<u8> {
    seq![(0x80 + b.track) as u8, b.time.0, b.time.1, b.flags] + b.frame
}

/// A simple block as an element: its id, its size in eight bytes, of which the first
/// only marks the length, and its bytes.
pub open spec fn block_element(b: Block) -> Seq<u8> {
    seq![0xA3u8, 0x01u8] + be_bytes(block_bytes(b).len() as int, 7) + block_bytes(b)
}

/// The blocks from `k` on, one after the other.
pub open spec fn blocks_from(blocks: Seq<Block>, k: int) -> Seq<u8>
    decreases blocks.len() - k,
{
    if k < 0 || k >= blocks.len() {
        Seq::empty()
    } else {
        block_element(blocks[k]) + blocks_from(blocks, k + 1)
    }
}

/// The frames so far, with those of a track among the blocks from `k` on.
pub open spec fn frames_from(
    blocks: Seq<Block>,
    k: int,
    track: int,
    frames: Seq<Seq<u8>>,
) -> Seq<Seq<u8>>
    decreases blocks.len() - k,
{
    if k < 0 || k >= blocks.len() {
        frames
    } else if blocks[k].track == track {
        frames_from(blocks, k + 1, track, frames.push(blocks[k].frame))
    } else {
        frames_from(blocks, k + 1, track, frames)
    }
}

proof fn lemma_big_power()
    ensures
        pow(256, 7) == 0x100_0000_0000_0000,
{
    reveal_with_fuel(pow, 8);
}

#[verifier::spinoff_prover]
proof fn lemma_block_element(d: Seq<u8>, pos: int, end: int, b: Block, track: int)
    requires
        block_ok(b),
        0 <= pos,
        pos + block_element(b).len() <= end <= d.len(),
        d.subrange(pos, pos + block_element(b).len()) == block_element(b),
    ensures
        element_refusal(d, pos, end) is None,
        element_id(d, pos) == 0xA3,
        content_end(d, pos, end) == pos + block_element(b).len(),
        content_end(d, pos, end) > pos,
        block_frame(d, content_start(d, pos), content_end(d, pos, end), track) == if b.track == track {
            Ok::<Option<Seq<u8>>, WebmError>(Some(b.frame))
        } else {
            Ok(None)
        },
{
    let e = block_element(b);
    let body = block_bytes(b);
    let n = body.len() as int;
    lemma_big_power();
    lemma_be_round_trip(n, 7);
    let size = be_bytes(n, 7);
    assert(e.len() == 9 + n);
    assert forall|i: int| 0 <= i < e.len() implies #[trigger] d[pos + i] == e[i] by {
        assert(d.subrange(pos, pos + e.len())[i] == d[pos + i]);
    }
    assert(d[pos + 0] == 0xA3 && d[pos + 1] == 1);
    assert(number_end(d, pos) == pos + 1);
    assert(d.subrange(pos, pos + 1) =~= seq![0xA3u8]);
    assert(big_endian(seq![0xA3u8]) == 0xA3) by {
        reveal_with_fuel(big_endian, 3);
        assert(seq![0xA3u8].drop_last() =~= Seq::<u8>::empty());
    }
    let q = pos + 1;
    assert(number_end(d, q) == q + 8);
    let written = d.subrange(q, q + 8);
    assert(written.update(0, 0u8) =~= seq![0u8] + size) by {
        assert forall|i: int| 0 <= i < 8 implies written.update(0, 0u8)[i] == (seq![0u8] + size)[i] by {
            if i > 0 {
                assert(d[pos + (1 + i)] == e[1 + i]);
            }
        }
    }
    lemma_leading_zero(size);
    assert(number_at(d, q) == n);
    assert(has_size(d, pos)) by {
        if super::is_all_ones(d, q) {
            assert(d[pos + 2] == e[2]);
            assert(d[q + 1] == 255);
            assert(size[0] == 255);
            lemma_small_top(n);
        }
    }
    let c = pos + 9;
    assert(content_start(d, pos) == c);
    assert(d[pos + 9] == e[9] && e[9] == body[0]);
    assert(number_end(d, c) == c + 1);
    assert(d.subrange(c, c + 1).update(0, b.track as u8) =~= seq![b.track as u8]);
    assert(big_endian(seq![b.track as u8]) == b.track) by {
        reveal_with_fuel(big_endian, 3);
        assert(seq![b.track as u8].drop_last() =~= Seq::<u8>::empty());
    }
    assert(number_at(d, c) == b.track);
    assert(d[pos + 12] == e[12] && e[12] == body[3]);
    assert(d.subrange(c + 4, c + n) =~= b.frame) by {
        assert forall|i: int| 0 <= i < b.frame.len() implies d.subrange(c + 4, c + n)[i]
            == b.frame[i] by {
            assert(d[pos + (13 + i)] == e[13 + i]);
        }
    }
}

proof fn lemma_small_top(n: int)
    requires
        0 <= n < 0x2_0000_0000,
    ensures
        be_bytes(n, 7)[0] == 0,
{
    lemma_big_power();
    lemma_be_round_trip(n, 7);
    reveal_with_fuel(be_bytes, 8);
    assert(n / 256 / 256 / 256 / 256 / 256 / 256 == 0);
}

/// The frames of a track are taken out of a cluster of simple blocks in order; blocks
/// of other tracks are passed over.
pub proof fn lemma_cluster_read_back(
    d: Seq<u8>,
    pos: int,
    end: int,
    blocks: Seq<Block>,
    k: int,
    track: int,
    frames: Seq<Seq<u8>>,
)
    requires
        0 <= pos <= end <= d.len(),
        0 <= k <= blocks.len(),
        d.subrange(pos, end) == blocks_from(blocks, k),
        forall|i: int| 0 <= i < blocks.len() ==> block_ok(#[trigger] blocks[i]),
    ensures
        cluster_from(d, pos, end, track, frames) == Ok::<Seq<Seq<u8>>, WebmError>(
            frames_from(blocks, k, track, frames),
        ),
    decreases blocks.len() - k,
{
    if k < blocks.len() {
        let b = blocks[k];
        let e = block_element(b);
        let rest = blocks_from(blocks, k + 1);
        let s = d.subrange(pos, end);
        assert(s == e + rest);
        assert(d.subrange(pos, pos + e.len()) =~= e) by {
            assert(s.subrange(0, e.len() as int) =~= e);
            assert(s.subrange(0, e.len() as int) =~= d.subrange(pos, pos + e.len()));
        }
        assert(d.subrange(pos + e.len(), end) =~= rest) by {
            assert(s.skip(e.len() as int) =~= rest);
            assert(s.skip(e.len() as int) =~= d.subrange(pos + e.len(), end));
        }
        lemma_block_element(d, pos, end, b, track);
        let f: Option<Seq<u8>> = if b.track == track {
            Some(b.frame)
        } else {
            None
        };
        lemma_cluster_read_back(
            d,
            pos + e.len(),
            end,
            blocks,
            k + 1,
            track,
            with_frame(frames, f),
        );
    } else {
        assert(d.subrange(pos, end).len() == 0);
    }
}

/// A number's first byte tells its length by its leading zeros; without the bit that
/// ends them the bytes are the value, the most significant first.
pub proof fn lemma_number_lengths(d: Seq<u8>, pos: int)
    requires
        0 <= pos < d.len(),
        d[pos] != 0,
    ensures
        ({
            let n = number_end(d, pos) - pos;
            &&& 1 <= n <= 8
            &&& n == 1 ==> 0x80 <= d[pos]
            &&& n == 2 ==> 0x40 <= d[pos] < 0x80
            &&& n == 3 ==> 0x20 <= d[pos] < 0x40
            &&& n == 4 ==> 0x10 <= d[pos] < 0x20
            &&& n == 5 ==> 8 <= d[pos] < 0x10
            &&& n == 6 ==> 4 <= d[pos] < 8
            &&& n == 7 ==> 2 <= d[pos] < 4
            &&& n == 8 ==> d[pos] == 1
            &&& n == 1 ==> number_at(d, pos) == d[pos] - 0x80
            &&& n == 2 && pos + 2 <= d.len() ==> number_at(d, pos) == 256 * (d[pos] - 0x40) + d[pos
                + 1]
        }),
{
    let n = number_end(d, pos) - pos;
    if n == 1 {
        let s = d.subrange(pos, pos + 1).update(0, (d[pos] - 0x80) as u8);
        reveal_with_fuel(big_endian, 3);
        assert(s.drop_last() =~= Seq::<u8>::empty());
    }
    if n == 2 && pos + 2 <= d.len() {
        let s = d.subrange(pos, pos + 2).update(0, (d[pos] - 0x40) as u8);
        reveal_with_fuel(big_endian, 4);
        assert(s.drop_last() =~= seq![(d[pos] - 0x40) as u8]);
        assert(s.drop_last().drop_last() =~= Seq::<u8>::empty());
    }
}

// ---------------------------------------------------------------------------
// Tracks.
// ---------------------------------------------------------------------------

/// An element with an id of one byte: the id, the size of the content in eight bytes, of
/// which the first only marks the length, and the content.
pub open spec fn element(id: u8, body: Seq<u8>) -> Seq<u8> {
    seq![id, 0x01u8] + be_bytes(body.len() as int, 7) + body
}

#[verifier::spinoff_prover]
proof fn lemma_element(d: Seq<u8>, pos: int, end: int, id: u8, body: Seq<u8>)
    requires
        id >= 128,
        body.len() < 0x1_0000_0000,
        0 <= pos,
        pos + element(id, body).len() <= end <= d.len(),
        d.subrange(pos, pos + element(id, body).len()) == element(id, body),
    ensures
        element(id, body).len() == 9 + body.len(),
        element_refusal(d, pos, end) is None,
        element_id(d, pos) == id,
        content_start(d, pos) == pos + 9,
        content_end(d, pos, end) == pos + 9 + body.len(),
        content(d, pos, end) == body,
{
    let e = element(id, body);
    let n = body.len() as int;
    lemma_big_power();
    lemma_be_round_trip(n, 7);
    let size = be_bytes(n, 7);
    assert(e.len() == 9 + n);
    assert forall|i: int| 0 <= i < e.len() implies #[trigger] d[pos + i] == e[i] by {
        assert(d.subrange(pos, pos + e.len())[i] == d[pos + i]);
    }
    assert(d[pos + 0] == id && d[pos + 1] == 1);
    assert(number_end(d, pos) == pos + 1);
    assert(d.subrange(pos, pos + 1) =~= seq![id]);
    assert(big_endian(seq![id]) == id) by {
        reveal_with_fuel(big_endian, 3);
        assert(seq![id].drop_last() =~= Seq::<u8>::empty());
    }
    let q = pos + 1;
    assert(number_end(d, q) == q + 8);
    let written = d.subrange(q, q + 8);
    assert(written.update(0, 0u8) =~= seq![0u8] + size) by {
        assert forall|i: int| 0 <= i < 8 implies written.update(0, 0u8)[i] == (seq![0u8] + size)[i] by {
            if i > 0 {
                assert(d[pos + (1 + i)] == e[1 + i]);
            }
        }
    }
    lemma_leading_zero(size);
    assert(number_at(d, q) == n);
    assert(has_size(d, pos)) by {
        if super::is_all_ones(d, q) {
            assert(d[pos + 2] == e[2]);
            assert(d[q + 1] == 255);
            assert(size[0] == 255);
            lemma_small_top(n);
        }
    }
    assert(d.subrange(pos + 9, pos + 9 + n) =~= body) by {
        assert forall|i: int| 0 <= i < n implies d.subrange(pos + 9, pos + 9 + n)[i] == body[i] by {
            assert(d[pos + (9 + i)] == e[9 + i]);
        }
    }
}

proof fn lemma_split_at(d: Seq<u8>, pos: int, end: int, a: Seq<u8>, b: Seq<u8>)
    requires
        0 <= pos <= end <= d.len(),
        d.subrange(pos, end) == a + b,
    ensures
        pos + a.len() + b.len() == end,
        d.subrange(pos, pos + a.len()) == a,
        d.subrange(pos + a.len(), end) == b,
{
    let s = d.subrange(pos, end);
    assert(s.len() == end - pos);
    assert((a + b).len() == a.len() + b.len());
    assert(s.subrange(0, a.len() as int) =~= a);
    assert(s.subrange(0, a.len() as int) =~= d.subrange(pos, pos + a.len()));
    assert(s.skip(a.len() as int) =~= b);
    assert(s.skip(a.len() as int) =~= d.subrange(pos + a.len(), end));
}

/// What a video element says of a size.
pub open spec fn size_elements(w: int, h: int) -> Seq<u8> {
    element(0xB0, be_bytes(w, 2)) + element(0xBA, be_bytes(h, 2))
}

proof fn lemma_two_bytes(v: int)
    requires
        0 <= v <= 0xffff,
    ensures
        be_bytes(v, 2).len() == 2,
        uint_of(be_bytes(v, 2)) == v,
{
    assert(pow(256, 2) == 0x1_0000) by {
        reveal_with_fuel(pow, 3);
    }
    lemma_be_round_trip(v, 2);
}

/// A size that was written is read back.
pub proof fn lemma_size_read_back(d: Seq<u8>, pos: int, end: int, w: int, h: int)
    requires
        0 <= w <= 0xffff,
        0 <= h <= 0xffff,
        0 <= pos <= end <= d.len(),
        d.subrange(pos, end) == size_elements(w, h),
    ensures
        video_from(d, pos, end, None, None) == Ok::<(int, int), WebmError>((w, h)),
{
    let a = element(0xB0, be_bytes(w, 2));
    let b = element(0xBA, be_bytes(h, 2));
    lemma_two_bytes(w);
    lemma_two_bytes(h);
    lemma_split_at(d, pos, end, a, b);
    lemma_element(d, pos, end, 0xB0, be_bytes(w, 2));
    let q = pos + a.len();
    assert(q + b.len() == end);
    lemma_element(d, q, end, 0xBA, be_bytes(h, 2));
    reveal_with_fuel(video_from, 4);
}

/// What a track entry says of a track: its number, its type, its codec and its size.
pub open spec fn entry_elements(number: int, kind: int, codec: Seq<u8>, w: int, h: int) -> Seq<u8> {
    element(0xD7, be_bytes(number, 2)) + (element(0x83, be_bytes(kind, 2)) + (element(0x86, codec)
        + element(0xE0, size_elements(w, h))))
}

/// A track entry that was written is read back: a video track with the codec id of VP9 is
/// taken with its number and size, any other is passed over.
#[verifier::spinoff_prover]
#[verifier::rlimit(40)]
pub proof fn lemma_entry_read_back(
    d: Seq<u8>,
    pos: int,
    end: int,
    number: int,
    kind: int,
    codec: Seq<u8>,
    w: int,
    h: int,
)
    requires
        0 <= number <= 0xffff,
        0 <= kind <= 0xffff,
        codec.len() < 0x1_0000,
        0 <= w <= 0xffff,
        0 <= h <= 0xffff,
        0 <= pos <= end <= d.len(),
        d.subrange(pos, end) == entry_elements(number, kind, codec, w, h),
    ensures
        entry_from(d, pos, end, no_fields()) == if kind == 1 && codec == seq![
            0x56u8,
            0x5Fu8,
            0x56u8,
            0x50u8,
            0x39u8,
        ] {
            Ok::<Option<(int, int, int)>, WebmError>(Some((number, w, h)))
        } else {
            Ok(None)
        },
{
    let sizes = size_elements(w, h);
    let e1 = element(0xD7, be_bytes(number, 2));
    let e2 = element(0x83, be_bytes(kind, 2));
    let e3 = element(0x86, codec);
    let e4 = element(0xE0, sizes);
    lemma_two_bytes(number);
    lemma_two_bytes(kind);
    lemma_two_bytes(w);
    lemma_two_bytes(h);
    lemma_split_at(d, pos, end, e1, e2 + (e3 + e4));
    let p2 = pos + e1.len();
    lemma_split_at(d, p2, end, e2, e3 + e4);
    let p3 = p2 + e2.len();
    lemma_split_at(d, p3, end, e3, e4);
    let p4 = p3 + e3.len();
    lemma_element(d, pos, end, 0xD7, be_bytes(number, 2));
    lemma_element(d, p2, end, 0x83, be_bytes(kind, 2));
    lemma_element(d, p3, end, 0x86, codec);
    lemma_sizes_len(w, h);
    assert(p4 + e4.len() == end);
    lemma_element(d, p4, end, 0xE0, sizes);
    lemma_size_read_back(d, p4 + 9, end, w, h);
    let f1 = TrackFields { number: Some(number), ..no_fields() };
    let f2 = TrackFields { kind: Some(kind), ..f1 };
    let vp9 = codec == super::VP9_CODEC_ID@;
    let f3 = TrackFields { is_vp9: vp9, ..f2 };
    let f4 = TrackFields { dims: Some((w, h)), ..f3 };
    assert(entry_from(d, end, end, f4) == track_of(f4));
    assert(entry_from(d, p4, end, f3) == entry_from(d, end, end, f4));
    assert(entry_from(d, p3, end, f2) == entry_from(d, p4, end, f3));
    assert(entry_from(d, p2, end, f1) == entry_from(d, p3, end, f2));
    assert(entry_from(d, pos, end, no_fields()) == entry_from(d, p2, end, f1));
    assert(super::VP9_CODEC_ID@ =~= seq![0x56u8, 0x5Fu8, 0x56u8, 0x50u8, 0x39u8]);
}

proof fn lemma_sizes_len(w: int, h: int)
    ensures
        size_elements(w, h).len() < 0x1_0000,
{
    reveal_with_fuel(be_bytes, 9);
}

/// A cluster of open size ends where an element starts that stands next to clusters: a
/// segment, a cluster, or one of the lists of seeks, info, tracks, cues, chapters, tags
/// and attachments.
pub proof fn lemma_segment_level(id: int)
    ensures
        super::is_segment_level(id) <==> id == 0x1853_8067 || id == 0x1F43_B675 || id == 0x114D_9B74
            || id == 0x1549_A966 || id == 0x1654_AE6B || id == 0x1C53_BB6B || id == 0x1043_A770
            || id == 0x1254_C367 || id == 0x1941_A469,
{
    let t = super::SEGMENT_LEVEL_IDS;
    assert(t[0] == 0x1853_8067 && t[1] == 0x1654_AE6B && t[2] == 0x1F43_B675 && t[3] == 0x114D_9B74
        && t[4] == 0x1549_A966);
    assert(t[5] == 0x1C53_BB6B && t[6] == 0x1043_A770 && t[7] == 0x1254_C367 && t[8]
        == 0x1941_A469);
}

} // verus!
