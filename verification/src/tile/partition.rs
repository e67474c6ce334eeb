//! How a frame is divided: into tiles, and a superblock into partitions.

use vstd::arithmetic::div_mod::{lemma_div_is_ordered, lemma_fundamental_div_mod_converse};
use vstd::arithmetic::power2::{lemma2_to64, lemma_pow2_pos, pow2};
use vstd::prelude::*;
use crate::bool_coder::{
    after_bool, after_tree, decoded_bool, decoded_tree, tree_bounded, BoolCoderError, BoolDecoder,
    BoolState,
};
use crate::common::power_of_two;
use crate::prob_tables::{
    MI_WIDTH_LOG2_LOOKUP, PARTITION_HORZ, PARTITION_SPLIT, PARTITION_TREE, PARTITION_VERT,
};

verus! {

/// Errors of tile decoding.
#[derive(Debug, Clone, Copy, PartialEq, Eq, Structural)]
pub enum TileError {
    /// The bool decoder of a tile could not be started.
    BoolCoder(BoolCoderError),
    /// A tile size goes beyond the data.
    InvalidTileSize,
    /// A block has mode info that no frame of this format can have, such as a
    /// size that the chroma subsampling does not allow.
    InvalidPartition,
    /// An inter block refers to a slot without a frame.
    MissingReference,
    /// An inter block refers to a frame of more than twice the width or height.
    RefFrameSizeOutOfRange,
    /// The bool decoder of a tile ended far from the end of the tile's data.
    CorruptTile,
}

/// Bits read past the end of a tile beyond which it counts as corrupt.
pub const TILE_OVER_READ_LIMIT_BITS: usize = 128;

/// Bits left unread in a tile beyond which it counts as corrupt.
pub const TILE_UNDER_READ_LIMIT_BITS: usize = 1024;

/// A decoder state ended near the end of a tile of `len` bytes.
pub open spec fn read_bounds_ok(st: BoolState, len: int) -> bool {
    st.over <= TILE_OVER_READ_LIMIT_BITS && 8 * len - st.pos <= TILE_UNDER_READ_LIMIT_BITS
}

/// Refuses a tile whose decoder ended far from the end of its data.
pub fn check_tile_read_bounds(r: &BoolDecoder, tile_bytes: &[u8]) -> (res: Result<(), TileError>)
    requires
        8 * tile_bytes.len() <= usize::MAX,
    ensures
        match res {
            Ok(_) => read_bounds_ok(r.state(), tile_bytes.len() as int),
            Err(e) => e == TileError::CorruptTile && !read_bounds_ok(
                r.state(),
                tile_bytes.len() as int,
            ),
        },
{
    let total: usize = tile_bytes.len() * 8;
    let pos: usize = r.bit_position();
    let unused_bits: usize = if total > pos { total - pos } else { 0 };
    if r.over_read_bits() > TILE_OVER_READ_LIMIT_BITS || unused_bits > TILE_UNDER_READ_LIMIT_BITS {
        return Err(TileError::CorruptTile);
    }
    Ok(())
}

// ---------------------------------------------------------------------------
// Tiles.
// ---------------------------------------------------------------------------

/// Where tile `tile_num` starts, in units, where `mis` units are divided into
/// `2^log2` tiles: at a whole superblock, or at the end.
pub open spec fn tile_offset(tile_num: int, mis: int, log2: nat) -> int {
    let start = (tile_num * ((mis + 7) / 8)) / (pow2(log2) as int) * 8;
    if start < mis {
        start
    } else {
        mis
    }
}

/// Where a tile starts.
pub fn get_tile_offset(tile_num: u32, mis: u32, tile_sz_log2: u32) -> (r: u32)
    requires
        mis <= u32::MAX - 7,
        tile_num * ((mis + 7) / 8) <= u32::MAX,
        tile_sz_log2 < 32,
        (tile_num * ((mis + 7) / 8)) / (pow2(tile_sz_log2 as nat) as int) * 8 <= u32::MAX,
    ensures
        r == tile_offset(tile_num as int, mis as int, tile_sz_log2 as nat),
        r <= mis,
        r % 8 == 0 || r == mis,
        tile_num == 0 ==> r == 0,
        tile_num == pow2(tile_sz_log2 as nat) ==> r == mis,
{
    proof {
        lemma_pow2_pos(tile_sz_log2 as nat);
        lemma_tiles_cover(mis as int, tile_sz_log2 as nat, 0);
    }
    let sbs: u32 = (mis + 7) / 8;
    let parts: i64 = power_of_two(tile_sz_log2);
    let offset: i64 = (tile_num * sbs) as i64 / parts * 8;
    if offset < mis as i64 {
        offset as u32
    } else {
        mis
    }
}

/// The tiles cover the units from the first to the last, in order and without
/// gaps: the first starts at 0, the end of the last is the end, and each starts
/// where the one before ends, never before it.
pub proof fn lemma_tiles_cover(mis: int, log2: nat, k: int)
    requires
        0 <= mis,
        0 <= k < pow2(log2),
    ensures
        tile_offset(0, mis, log2) == 0,
        tile_offset(pow2(log2) as int, mis, log2) == mis,
        0 <= tile_offset(k, mis, log2) <= tile_offset(k + 1, mis, log2) <= mis,
        tile_offset(k, mis, log2) % 8 == 0 || tile_offset(k, mis, log2) == mis,
{
    let sbs = (mis + 7) / 8;
    let d = pow2(log2) as int;
    lemma_pow2_pos(log2);
    assert(0 * sbs == 0);
    assert(0int / d == 0) by {
        lemma_fundamental_div_mod_converse(0, d, 0, 0);
    }
    lemma_fundamental_div_mod_converse(d * sbs, d, sbs, 0);
    assert(d * sbs == sbs * d) by (nonlinear_arith);
    assert(0 <= k * sbs <= (k + 1) * sbs) by (nonlinear_arith)
        requires
            0 <= k,
            0 <= sbs,
    ;
    lemma_div_is_ordered(k * sbs, (k + 1) * sbs, d);
    vstd::arithmetic::div_mod::lemma_div_pos_is_pos(k * sbs, d);
}

/// The value of 4 bytes, most significant first.
pub open spec fn be32(s: Seq<u8>) -> int {
    ((s[0] as int * 256 + s[1]) * 256 + s[2]) * 256 + s[3]
}

/// The data starts with a tile size that fits.
pub open spec fn tile_size_ok(data: Seq<u8>) -> bool {
    data.len() >= 4 && be32(data) <= data.len() - 4
}

/// The tiles of the data: each but the last has its size before it, the last
/// takes what is left. `None` where a size does not fit.
pub open spec fn tiles_of(data: Seq<u8>, n: nat) -> Option<Seq<Seq<u8>>>
    decreases n,
{
    if n <= 1 {
        Some(seq![data])
    } else if !tile_size_ok(data) {
        None
    } else {
        let size = be32(data);
        match tiles_of(data.skip(4 + size), (n - 1) as nat) {
            Some(rest) => Some(seq![data.subrange(4, 4 + size)] + rest),
            None => None,
        }
    }
}

/// Splits tile data into `n` tiles.
pub fn split_tiles<'a>(data: &'a [u8], n: usize) -> (res: Result<Vec<&'a [u8]>, TileError>)
    requires
        n >= 1,
    ensures
        match res {
            Ok(tiles) => {
                &&& tiles_of(data@, n as nat) is Some
                &&& tiles.len() == n
                &&& tiles_of(data@, n as nat)->0.len() == n
                &&& forall|i: int|
                    0 <= i < n ==> (#[trigger] tiles[i])@ == tiles_of(data@, n as nat)->0[i] && tiles[i].len() <= data.len()
            },
            Err(e) => e == TileError::InvalidTileSize && tiles_of(data@, n as nat) is None,
        },
{
    let mut tiles: Vec<&'a [u8]> = Vec::new();
    let mut rest: &'a [u8] = data;
    let mut left: usize = n;
    let ghost whole = tiles_of(data@, n as nat);
    while left > 1
        invariant
            1 <= left <= n,
            tiles.len() == n - left,
            rest.len() <= data.len(),
            forall|i: int| 0 <= i < tiles.len() ==> (#[trigger] tiles[i]).len() <= data.len(),
            whole == match tiles_of(rest@, left as nat) {
                Some(more) => Some(Seq::new(tiles@.len(), |i: int| tiles[i]@) + more),
                None => None,
            },
            whole == tiles_of(data@, n as nat),
        decreases left,
    {
        if rest.len() < 4 {
            return Err(TileError::InvalidTileSize);
        }
        let size: u64 = ((rest[0] as u64 * 256 + rest[1] as u64) * 256 + rest[2] as u64) * 256
            + rest[3] as u64;
        if size > (rest.len() - 4) as u64 {
            return Err(TileError::InvalidTileSize);
        }
        let end: usize = 4 + size as usize;
        let ghost before = tiles@;
        let ghost old_rest = rest@;
        tiles.push(&rest[4..end]);
        rest = &rest[end..rest.len()];
        left -= 1;
        proof {
            assert(rest@ =~= old_rest.skip(end as int));
            match tiles_of(rest@, left as nat) {
                Some(more) => {
                    assert(Seq::new(before.len(), |i: int| before[i]@) + (seq![old_rest.subrange(
                        4,
                        end as int,
                    )] + more) =~= Seq::new(tiles@.len(), |i: int| tiles[i]@) + more);
                },
                None => {},
            }
        }
    }
    let ghost before = tiles@;
    tiles.push(rest);
    proof {
        assert(whole->0 =~= Seq::new(before.len(), |i: int| before[i]@) + seq![rest@]);
    }
    Ok(tiles)
}

// ---------------------------------------------------------------------------
// Partitions.
// ---------------------------------------------------------------------------

/// Bit `k` of a context.
pub open spec fn context_bit(v: u8, k: nat) -> bool {
    (v as int / pow2(k) as int) % 2 == 1
}

/// Whether one of the `n` contexts from `start` on has bit `k`.
pub open spec fn any_bit(ctx: Seq<u8>, start: int, n: int, k: nat) -> bool {
    exists|i: int| start <= i < start + n && context_bit(#[trigger] ctx[i], k)
}

/// The context of a partition: the block size, and whether the neighbours above
/// and to the left are divided further than the block. The left contexts repeat
/// every 8 units.
pub open spec fn partition_context(
    above: Seq<u8>,
    left: Seq<u8>,
    row: int,
    col: int,
    bsize: u8,
    num8x8: int,
) -> int {
    let bsl = MI_WIDTH_LOG2_LOOKUP[bsize as int] as int;
    let bit = (3 - bsl) as nat;
    bsl * 4 + (if any_bit(left, row % 8, num8x8, bit) {
        2int
    } else {
        0int
    }) + (if any_bit(above, col, num8x8, bit) {
        1int
    } else {
        0int
    })
}

/// The partition that the decoder gives: from the tree where the block lies in
/// the frame, from one bool where it reaches over one border, and a split where
/// it reaches over both.
pub open spec fn partition_at(
    d: Seq<u8>,
    st: BoolState,
    probs: Seq<u8>,
    has_rows: bool,
    has_cols: bool,
) -> int {
    if has_rows && has_cols {
        decoded_tree(d, st, PARTITION_TREE@, |node: usize| probs[node as int], 0, 3)
    } else if has_cols {
        if decoded_bool(st, probs[1]) {
            PARTITION_SPLIT as int
        } else {
            PARTITION_HORZ as int
        }
    } else if has_rows {
        if decoded_bool(st, probs[2]) {
            PARTITION_SPLIT as int
        } else {
            PARTITION_VERT as int
        }
    } else {
        PARTITION_SPLIT as int
    }
}

/// The state after the partition.
pub open spec fn after_partition(
    d: Seq<u8>,
    st: BoolState,
    probs: Seq<u8>,
    has_rows: bool,
    has_cols: bool,
) -> BoolState {
    if has_rows && has_cols {
        after_tree(d, st, PARTITION_TREE@, |node: usize| probs[node as int], 0, 3)
    } else if has_cols {
        after_bool(d, st, probs[1])
    } else if has_rows {
        after_bool(d, st, probs[2])
    } else {
        st
    }
}

/// The tree of partitions has three levels.
pub proof fn lemma_partition_tree()
    ensures
        tree_bounded(PARTITION_TREE@, 0, 3),
{
    reveal_with_fuel(tree_bounded, 4);
    let t = PARTITION_TREE@;
    assert(t[0] == 0 && t[1] == 2 && t[2] == -1 && t[3] == 4 && t[4] == -2 && t[5] == -3);
}

/// A partition is one of four.
pub proof fn lemma_partition_range(
    d: Seq<u8>,
    st: BoolState,
    probs: Seq<u8>,
    has_rows: bool,
    has_cols: bool,
)
    ensures
        0 <= partition_at(d, st, probs, has_rows, has_cols) <= 3,
        !has_rows && !has_cols ==> partition_at(d, st, probs, has_rows, has_cols)
            == PARTITION_SPLIT,
        !has_rows && has_cols ==> partition_at(d, st, probs, has_rows, has_cols) != PARTITION_VERT
            && partition_at(d, st, probs, has_rows, has_cols) != 0,
        has_rows && !has_cols ==> partition_at(d, st, probs, has_rows, has_cols) != PARTITION_HORZ
            && partition_at(d, st, probs, has_rows, has_cols) != 0,
{
    reveal_with_fuel(decoded_tree, 4);
    let t = PARTITION_TREE@;
    assert(t[0] == 0 && t[1] == 2 && t[2] == -1 && t[3] == 4 && t[4] == -2 && t[5] == -3);
}

/// Whether one of the `n` contexts from `start` on has bit `k`.
pub fn find_bit(ctx: &[u8], start: usize, n: usize, k: u32) -> (b: bool)
    requires
        start + n <= ctx.len(),
        k <= 3,
    ensures
        b == any_bit(ctx@, start as int, n as int, k as nat),
{
    proof {
        lemma2_to64();
    }
    let mask: u8 = power_of_two(k) as u8;
    for i in 0..n
        invariant
            start + n <= ctx.len(),
            mask == pow2(k as nat),
            1 <= mask <= 8,
            forall|j: int| start <= j < start + i ==> !context_bit(#[trigger] ctx@[j], k as nat),
    {
        if (ctx[start + i] / mask) % 2 == 1 {
            assert(context_bit(ctx@[start + i], k as nat));
            return true;
        }
    }
    false
}

/// The probability of a node.
pub open spec fn node_prob(probs: [u8; 3], node: usize) -> u8 {
    probs[node as int]
}

/// Reads a partition with the given probabilities.
pub fn decode_partition_value(
    r: &mut BoolDecoder,
    probs: &[u8; 3],
    has_rows: bool,
    has_cols: bool,
) -> (p: u8)
    ensures
        p == partition_at(old(r).bytes(), old(r).state(), probs@, has_rows, has_cols),
        p <= PARTITION_SPLIT,
        final(r).bytes() == old(r).bytes(),
        final(r).state() == after_partition(
            old(r).bytes(),
            old(r).state(),
            probs@,
            has_rows,
            has_cols,
        ),
{
    proof {
        lemma_partition_range(r.bytes(), r.state(), probs@, has_rows, has_cols);
        lemma_partition_tree();
    }
    if has_rows && has_cols {
        let tree: [i32; 6] = PARTITION_TREE;
        let ghost prob = |node: usize| probs@[node as int];
        let table: [u8; 3] = *probs;
        let ghost d = r.bytes();
        let ghost st = r.state();
        assert(tree_bounded(tree@, 0, 3));
        let prob_of = |node: usize| -> (p: u8)
            requires
                node <= 2,
            ensures
                p == node_prob(table, node),
        {
            let p: u8 = table[node];
            p
        };
        let v: i32 = r.read_tree(tree.as_slice(), prob_of);
        assert(v == decoded_tree(d, st, tree@, prob, 0, 3));
        v as u8
    } else if has_cols {
        if r.read_bool(probs[1]) {
            PARTITION_SPLIT
        } else {
            PARTITION_HORZ
        }
    } else if has_rows {
        if r.read_bool(probs[2]) {
            PARTITION_SPLIT
        } else {
            PARTITION_VERT
        }
    } else {
        PARTITION_SPLIT
    }
}

} // verus!
