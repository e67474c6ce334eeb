//! Where the loop filter works: which positions of a plane it filters, in which
//! order, and with which size.

use vstd::arithmetic::power2::lemma2_to64;
use vstd::prelude::*;
use crate::common::spec_uv_tx_size;
use crate::prob_tables::{
    BLOCK_16X16, NEARESTMV, NEARMV, NEWMV, NUM_8X8_BLOCKS_HIGH_LOOKUP, NUM_8X8_BLOCKS_WIDE_LOOKUP,
};
use crate::tile::MiInfo;
use super::{
    edge_count, edge_done, edge_filtered, edge_length, edges_done, filter_level, frame_ok, info_at,
    pass_done, pass_ok, plane_filtered, plane_tx_size, position_filtered, strengths_of, superblocks,
    superblocks_done, FilterFrame, FilterPass,
};

verus! {

/// Luma samples per sample of a plane, in one direction.
pub open spec fn luma_per_sample(plane: int, sub: u32) -> int {
    if plane > 0 && sub == 1 {
        2
    } else {
        1
    }
}

/// A position of a plane that a pass comes to: column and row of the first sample
/// behind the edge.
pub struct Place {
    pub x: int,
    pub y: int,
}

/// The `i`-th position along an edge; the edges of a superblock are 4 samples
/// apart and run down it in the first pass, across it in the second.
pub open spec fn place_of(f: FilterFrame, p: FilterPass, edge: int, i: int) -> Place {
    let left = 8 * p.col / luma_per_sample(p.plane, f.subsampling_x);
    let top = 8 * p.row / luma_per_sample(p.plane, f.subsampling_y);
    if p.pass == 0 {
        Place { x: left + 4 * edge, y: top + i }
    } else {
        Place { x: left + i, y: top + 4 * edge }
    }
}

/// The mode info that counts for a sample of a plane: that of its unit, or of the
/// first of the units that share a unit of a subsampled plane.
pub open spec fn info_for(f: FilterFrame, plane: int, q: Place) -> MiInfo {
    f.mi_grid.at(
        if luma_per_sample(plane, f.subsampling_y) == 2 {
            2 * (q.y / 8)
        } else {
            q.y / 8
        },
        if luma_per_sample(plane, f.subsampling_x) == 2 {
            2 * (q.x / 8)
        } else {
            q.x / 8
        },
    )
}

/// The level for a block.
pub open spec fn level_for(f: FilterFrame, m: MiInfo) -> int {
    filter_level(
        *f.lf,
        *f.seg,
        m.segment_id as int,
        m.ref_frame[0] as int,
        if m.y_mode == NEARESTMV || m.y_mode == NEARMV || m.y_mode == NEWMV {
            1
        } else {
            0
        },
    )
}

/// The block size whose edges count in a direction: at least 16x16 where that is
/// subsampled.
pub open spec fn counted_size(m: MiInfo, halved: bool) -> int {
    if halved && m.mi_size < BLOCK_16X16 {
        BLOCK_16X16 as int
    } else {
        m.mi_size as int
    }
}

/// The transform size of a block in a plane.
pub open spec fn transform_in(f: FilterFrame, plane: int, m: MiInfo) -> u8 {
    if plane == 0 {
        m.tx_size
    } else {
        spec_uv_tx_size(m.mi_size, m.tx_size, f.subsampling_x as int, f.subsampling_y as int)
    }
}

/// The filter size for a transform size: one larger than 4x4 at every 32nd sample,
/// never above 16x16, and 8x8 in place of that in the last unit of a subsampled
/// plane.
pub open spec fn size_at(tx: u8, at: int, last: bool) -> u8 {
    if tx == 0 {
        if at % 32 == 0 {
            1
        } else {
            0
        }
    } else if tx == 1 || last {
        1
    } else {
        2
    }
}

proof fn lemma_spread(edge: int, i: int, u: int)
    requires
        u == 1 || u == 2,
    ensures
        edge * (4 * u) == u * (4 * edge),
        i * u == u * i,
        forall|a: int| #[trigger] (u * (a + 4 * edge)) == u * a + u * (4 * edge),
        forall|a: int| #[trigger] (u * (a + i)) == u * a + u * i,
{
    assert(edge * (4 * u) == u * (4 * edge)) by (nonlinear_arith);
    assert(i * u == u * i) by (nonlinear_arith);
    assert forall|a: int| #[trigger] (u * (a + 4 * edge)) == u * a + u * (4 * edge) by {
        assert(u * (a + 4 * edge) == u * a + u * (4 * edge)) by (nonlinear_arith);
    }
    assert forall|a: int| #[trigger] (u * (a + i)) == u * a + u * i by {
        assert(u * (a + i) == u * a + u * i) by (nonlinear_arith);
    }
}

proof fn lemma_same_info(f: FilterFrame, p: FilterPass, edge: int, i: int)
    requires
        frame_ok(f),
        pass_ok(f, p),
        0 <= edge,
        0 <= i,
    ensures
        ({
            let q = place_of(f, p, edge, i);
            let ux = luma_per_sample(p.plane, f.subsampling_x);
            let uy = luma_per_sample(p.plane, f.subsampling_y);
            &&& super::luma_x(f, p, edge, i) == ux * q.x
            &&& super::luma_y(f, p, edge, i) == uy * q.y
            &&& info_at(f, p, edge, i) == info_for(f, p.plane, q)
            &&& plane_tx_size(f, p, info_at(f, p, edge, i)) == transform_in(
                f,
                p.plane,
                info_for(f, p.plane, q),
            )
            &&& super::level_at(f, p, edge, i) == level_for(f, info_for(f, p.plane, q))
        }),
{
    let q = place_of(f, p, edge, i);
    let ux = luma_per_sample(p.plane, f.subsampling_x);
    let uy = luma_per_sample(p.plane, f.subsampling_y);
    assert(super::unit(super::sub_x_of(f, p)) == ux);
    assert(super::unit(super::sub_y_of(f, p)) == uy);
    assert(ux == 1 || ux == 2);
    assert(uy == 1 || uy == 2);
    assert(8 * p.col == ux * (8 * p.col / ux)) by {
        if ux == 2 {
            assert(p.col == 8 * (p.col / 8));
        }
    }
    assert(8 * p.row == uy * (8 * p.row / uy)) by {
        if uy == 2 {
            assert(p.row == 8 * (p.row / 8));
        }
    }
    let lx = super::luma_x(f, p, edge, i);
    let ly = super::luma_y(f, p, edge, i);
    lemma_spread(edge, i, ux);
    lemma_spread(edge, i, uy);
    assert(lx == ux * q.x && ly == uy * q.y);
    lemma_undoubled(ux, q.x);
    lemma_undoubled(uy, q.y);
    assert(super::first_unit(lx, super::sub_x_of(f, p)) == if ux == 2 {
        2 * (q.x / 8)
    } else {
        q.x / 8
    });
    assert(super::first_unit(ly, super::sub_y_of(f, p)) == if uy == 2 {
        2 * (q.y / 8)
    } else {
        q.y / 8
    });
}

/// A column or row of a plane is at an edge of transforms of a size.
pub open spec fn at_transform_edge(at: int, tx: u8) -> bool {
    if tx == 0 {
        at % 4 == 0
    } else if tx == 1 {
        at % 8 == 0
    } else if tx == 2 {
        at % 16 == 0
    } else {
        at % 32 == 0
    }
}

proof fn lemma_transform_edge(at: int, first: int, edge: int, tx: u8)
    requires
        tx <= 3,
        first % 32 == 0,
        at == first + 4 * edge,
        0 <= edge,
    ensures
        (edge % super::tx_units(tx) == 0) == at_transform_edge(at, tx),
        (edge % 8 == 0) == (at % 32 == 0),
{
    lemma2_to64();
    let n = super::tx_units(tx);
    if tx == 0 {
        assert(n == 1);
        assert(edge % 1 == 0);
    } else if tx == 1 {
        assert(n == 2);
        assert((edge % 2 == 0) == (at % 8 == 0));
    } else if tx == 2 {
        assert(n == 4);
        assert((edge % 4 == 0) == (at % 16 == 0));
    } else {
        assert(n == 8);
        assert((edge % 8 == 0) == (at % 32 == 0));
    }
}

proof fn lemma_undoubled(u: int, v: int)
    requires
        u == 1 || u == 2,
    ensures
        (u * v) / u == v,
        u == 1 ==> u * v == v,
        u == 2 ==> u * v == 2 * v && (u * v) / 8 == v / 4,
{
    if u == 1 {
        assert((1 * v) / 1 == v);
    } else {
        assert((2 * v) / 2 == v);
    }
}

/// Across vertical edges, a position is filtered where it lies in the frame, not
/// at its left border, at the left edge of a block or, unless the block is inter
/// and without residual, of a transform; with the level of the block and the size
/// of the transform. A level of 0 filters nothing.
#[verifier::spinoff_prover]
#[verifier::rlimit(40)]
pub proof fn lemma_vertical_edges(
    f: FilterFrame,
    p: FilterPass,
    width: int,
    s: Seq<u16>,
    edge: int,
    i: int,
)
    requires
        frame_ok(f),
        pass_ok(f, p),
        p.pass == 0,
        0 <= edge,
        0 <= i,
    ensures
        ({
            let q = place_of(f, p, edge, i);
            let ux = luma_per_sample(p.plane, f.subsampling_x);
            let uy = luma_per_sample(p.plane, f.subsampling_y);
            let m = info_for(f, p.plane, q);
            let tx = transform_in(f, p.plane, m);
            let block_edge = (ux * q.x) % (8 * NUM_8X8_BLOCKS_WIDE_LOOKUP[counted_size(m, ux == 2)])
                == 0;
            let tx_edge = at_transform_edge(q.x, tx);
            let inside = 0 < q.x && ux * q.x < 8 * f.mi_cols && uy * q.y < 8 * f.mi_rows;
            let filtered = inside && level_for(f, m) > 0 && (block_edge || (tx_edge && (
            m.ref_frame[0] == 0 || !m.skip)));
            let r = position_filtered(f, p, width, s, edge, i);
            &&& !filtered ==> r == s
            &&& filtered ==> r == edge_filtered(
                s,
                q.y * width + q.x,
                1,
                strengths_of(level_for(f, m), f.lf.sharpness, f.bit_depth as int),
                size_at(tx, q.x, ux == 2 && q.x / 4 == f.mi_cols - 1),
                f.bit_depth as int,
            )
        }),
{
    let q = place_of(f, p, edge, i);
    let ux = luma_per_sample(p.plane, f.subsampling_x);
    let uy = luma_per_sample(p.plane, f.subsampling_y);
    lemma_same_info(f, p, edge, i);
    let m = info_for(f, p.plane, q);
    let tx = transform_in(f, p.plane, m);
    lemma_first_samples(p.col, p.row, ux, uy);
    lemma_place_info(f, p.plane, q, inside_grid(f, p.plane, q));
    lemma_undoubled(ux, q.x);
    lemma_undoubled(uy, q.y);
    if inside_grid(f, p.plane, q) {
        lemma_transform_edge(q.x, 8 * p.col / ux, edge, tx);
    }
}

/// The position lies in the frame.
pub open spec fn inside_grid(f: FilterFrame, plane: int, q: Place) -> bool {
    &&& 0 <= q.x
    &&& 0 <= q.y
    &&& luma_per_sample(plane, f.subsampling_x) * q.x < 8 * f.mi_cols
    &&& luma_per_sample(plane, f.subsampling_y) * q.y < 8 * f.mi_rows
}

proof fn lemma_first_samples(col: int, row: int, ux: int, uy: int)
    requires
        col % 8 == 0,
        row % 8 == 0,
        0 <= col,
        0 <= row,
        ux == 1 || ux == 2,
        uy == 1 || uy == 2,
    ensures
        (8 * col / ux) % 32 == 0,
        (8 * row / uy) % 32 == 0,
        0 <= 8 * col / ux,
        0 <= 8 * row / uy,
{
    assert(col == 8 * (col / 8) && row == 8 * (row / 8));
    if ux == 1 {
        assert(8 * col / ux == 64 * (col / 8));
    } else {
        assert(8 * col / ux == 32 * (col / 8));
    }
    if uy == 1 {
        assert(8 * row / uy == 64 * (row / 8));
    } else {
        assert(8 * row / uy == 32 * (row / 8));
    }
}

proof fn lemma_place_info(f: FilterFrame, plane: int, q: Place, inside: bool)
    requires
        frame_ok(f),
        inside == inside_grid(f, plane, q),
        plane >= 0,
    ensures
        inside ==> {
            let m = info_for(f, plane, q);
            super::info_ok(f, m) && transform_in(f, plane, m) <= 3
        },
{
    if inside {
        let m = info_for(f, plane, q);
        let r = if luma_per_sample(plane, f.subsampling_y) == 2 {
            2 * (q.y / 8)
        } else {
            q.y / 8
        };
        let c = if luma_per_sample(plane, f.subsampling_x) == 2 {
            2 * (q.x / 8)
        } else {
            q.x / 8
        };
        assert(0 <= r < f.mi_grid.rows && 0 <= c < f.mi_grid.cols);
        assert(super::info_ok(f, f.mi_grid.at(r, c)));
        if plane > 0 && m.mi_size >= 3 {
            assert(crate::prob_tables::MAX_TXSIZE_LOOKUP[crate::prob_tables::SS_SIZE_LOOKUP[m.mi_size as int][f.subsampling_x as int][f.subsampling_y as int] as int]
                <= 3);
        }
    }
}

/// Across horizontal edges the same holds with rows for columns, except that in a
/// plane subsampled along the edge, a frame with an odd number of unit columns
/// has no edges inside the units of the last column.
#[verifier::spinoff_prover]
#[verifier::rlimit(40)]
pub proof fn lemma_horizontal_edges(
    f: FilterFrame,
    p: FilterPass,
    width: int,
    s: Seq<u16>,
    edge: int,
    i: int,
)
    requires
        frame_ok(f),
        pass_ok(f, p),
        p.pass == 1,
        0 <= edge,
        0 <= i,
    ensures
        ({
            let q = place_of(f, p, edge, i);
            let ux = luma_per_sample(p.plane, f.subsampling_x);
            let uy = luma_per_sample(p.plane, f.subsampling_y);
            let m = info_for(f, p.plane, q);
            let tx = transform_in(f, p.plane, m);
            let block_edge = (uy * q.y) % (8 * NUM_8X8_BLOCKS_HIGH_LOOKUP[counted_size(m, uy == 2)])
                == 0;
            let in_last_column = ux == 2 && f.mi_cols % 2 == 1 && 2 * q.x + 8 >= 8 * f.mi_cols;
            let tx_edge = at_transform_edge(q.y, tx) && !(in_last_column && q.y % 8 != 0);
            let inside = 0 < q.y && ux * q.x < 8 * f.mi_cols && uy * q.y < 8 * f.mi_rows;
            let filtered = inside && level_for(f, m) > 0 && (block_edge || (tx_edge && (
            m.ref_frame[0] == 0 || !m.skip)));
            let r = position_filtered(f, p, width, s, edge, i);
            &&& !filtered ==> r == s
            &&& filtered ==> r == edge_filtered(
                s,
                q.y * width + q.x,
                width,
                strengths_of(level_for(f, m), f.lf.sharpness, f.bit_depth as int),
                size_at(tx, q.y, uy == 2 && q.y / 4 == f.mi_rows - 1),
                f.bit_depth as int,
            )
        }),
{
    let q = place_of(f, p, edge, i);
    let ux = luma_per_sample(p.plane, f.subsampling_x);
    let uy = luma_per_sample(p.plane, f.subsampling_y);
    lemma_same_info(f, p, edge, i);
    let m = info_for(f, p.plane, q);
    let tx = transform_in(f, p.plane, m);
    lemma_first_samples(p.col, p.row, ux, uy);
    lemma_place_info(f, p.plane, q, inside_grid(f, p.plane, q));
    lemma_undoubled(ux, q.x);
    lemma_undoubled(uy, q.y);
    let top = 8 * p.row / uy;
    assert(q.y == top + 4 * edge);
    assert((q.y % 8 != 0) == (edge % 2 == 1)) by {
        assert(top % 8 == 0);
    }
    if inside_grid(f, p.plane, q) {
        lemma_transform_edge(q.y, top, edge, tx);
    }
}

/// A superblock has 64 samples, or 32 where the plane is subsampled, each way: the
/// passes come to every fourth of them across the edges and to each of them along
/// them.
#[verifier::spinoff_prover]
pub proof fn lemma_pass_extent(f: FilterFrame, p: FilterPass)
    requires
        frame_ok(f),
        pass_ok(f, p),
    ensures
        ({
            let ux = luma_per_sample(p.plane, f.subsampling_x);
            let uy = luma_per_sample(p.plane, f.subsampling_y);
            &&& p.pass == 0 ==> 4 * ux * edge_count(f, p) == 64 && uy * edge_length(f, p) == 64
            &&& p.pass == 1 ==> 4 * uy * edge_count(f, p) == 64 && ux * edge_length(f, p) == 64
        }),
{
    let ux = luma_per_sample(p.plane, f.subsampling_x);
    let uy = luma_per_sample(p.plane, f.subsampling_y);
    assert(super::unit(super::sub_x_of(f, p)) == ux);
    assert(super::unit(super::sub_y_of(f, p)) == uy);
    assert(16int / 1 == 16 && 16int / 2 == 8 && 64int / 1 == 64 && 64int / 2 == 32);
    if ux == 1 {
        assert(4 * ux * 16 == 64 && ux * 64 == 64);
    } else {
        assert(ux == 2);
        assert(4 * ux * 8 == 64 && ux * 32 == 64);
    }
    if uy == 1 {
        assert(4 * uy * 16 == 64 && uy * 64 == 64);
    } else {
        assert(uy == 2);
        assert(4 * uy * 8 == 64 && uy * 32 == 64);
    }
}

/// A pass comes to its edges in order, and to the positions of an edge in order.
pub proof fn lemma_pass_order(f: FilterFrame, p: FilterPass, width: int, s: Seq<u16>)
    requires
        frame_ok(f),
        pass_ok(f, p),
    ensures
        pass_done(f, p, width, s) == edges_done(f, p, width, s, edge_count(f, p) as nat),
        edges_done(f, p, width, s, 0) == s,
        forall|e: nat|
            #![trigger edges_done(f, p, width, s, e)]
            edges_done(f, p, width, s, (e + 1) as nat) == edge_done(
                f,
                p,
                width,
                edges_done(f, p, width, s, e),
                e as int,
                edge_length(f, p) as nat,
            ),
        forall|t: Seq<u16>, e: int| #[trigger] edge_done(f, p, width, t, e, 0) == t,
        forall|t: Seq<u16>, e: int, n: nat|
            #![trigger edge_done(f, p, width, t, e, n)]
            edge_done(f, p, width, t, e, (n + 1) as nat) == position_filtered(
                f,
                p,
                width,
                edge_done(f, p, width, t, e, n),
                e,
                n as int,
            ),
{
}

/// The superblocks of a frame are filtered row by row and from left to right, each
/// across its vertical edges before its horizontal ones.
pub proof fn lemma_superblock_order(
    f: FilterFrame,
    plane: int,
    width: int,
    s: Seq<u16>,
    row: int,
    col: int,
)
    requires
        frame_ok(f),
        0 <= row,
        8 * row < f.mi_rows,
        0 <= col,
        8 * col < f.mi_cols,
    ensures
        ({
            let cols = (f.mi_cols as int + 7) / 8;
            let k = row * cols + col;
            let before = superblocks_done(f, plane, width, s, k as nat);
            let first = FilterPass { plane, pass: 0, row: 8 * row, col: 8 * col };
            let second = FilterPass { plane, pass: 1, row: 8 * row, col: 8 * col };
            superblocks_done(f, plane, width, s, (k + 1) as nat) == pass_done(
                f,
                second,
                width,
                pass_done(f, first, width, before),
            )
        }),
        superblocks_done(f, plane, width, s, 0) == s,
        plane_filtered(f, plane, width, s) == superblocks_done(
            f,
            plane,
            width,
            s,
            (((f.mi_rows as int + 7) / 8) * ((f.mi_cols as int + 7) / 8)) as nat,
        ),
{
    let cols = superblocks(f.mi_cols as int);
    let k = row * cols + col;
    assert(0 <= col < cols);
    assert(0 <= row * cols) by (nonlinear_arith)
        requires
            0 <= row,
            0 <= cols,
    ;
    vstd::arithmetic::div_mod::lemma_fundamental_div_mod_converse(k, cols, row, col);
    assert(row * cols == cols * row) by (nonlinear_arith);
}

} // verus!
