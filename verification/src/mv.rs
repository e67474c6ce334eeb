//! Helpers of motion vector prediction: clamping, candidate lists, scaling.

use vstd::prelude::*;

verus! {

/// A motion vector: row and column, in units of an eighth of a pixel.
pub type Mv = [i32; 2];

/// The zero motion vector.
pub const ZERO_MV: Mv = [0, 0];

/// The number of neighbours scanned for candidates.
pub const MVREF_NEIGHBOURS: usize = 8;

/// How far beyond the frame a candidate may point.
pub const MV_BORDER: i32 = 128;

/// How far beyond the frame a predicted vector may point.
pub const MV_PRED_BORDER: i32 = 1248;

/// From this many whole pixels on, high precision is not used.
pub const COMPANDED_MVREF_THRESH: i32 = 8;

/// Side of a mode info unit in pixels.
pub const MI_SIZE: i32 = 8;

/// The least component that keeps a block at `mi_pos` within `border` of the
/// frame.
pub open spec fn mv_low(border: int, mi_pos: int) -> int {
    -(mi_pos * 64) - border
}

/// The greatest component that keeps a block of `len` units at `mi_pos` within
/// `border` of a frame of `mi_count` units.
pub open spec fn mv_high(border: int, mi_pos: int, len: int, mi_count: int) -> int {
    (mi_count - len - mi_pos) * 64 + border
}

/// The two limits are in order and can be computed in 32 bits.
pub open spec fn mv_limits_ok(border: int, mi_pos: int, len: int, mi_count: int) -> bool {
    &&& 0 <= mi_pos
    &&& mi_pos * 64 <= i32::MAX
    &&& 0 <= len <= i32::MAX
    &&& 0 <= mi_count <= i32::MAX
    &&& i32::MIN <= (mi_count - len - mi_pos) * 64 <= i32::MAX
    &&& i32::MIN <= mv_low(border, mi_pos) <= i32::MAX
    &&& i32::MIN <= mv_high(border, mi_pos, len, mi_count) <= i32::MAX
    &&& mv_low(border, mi_pos) <= mv_high(border, mi_pos, len, mi_count)
}

/// A component limited to what keeps a block within `border` of the frame.
pub open spec fn limited(mv: int, border: int, mi_pos: int, len: int, mi_count: int) -> int {
    crate::common::spec_clip3(
        mv_low(border, mi_pos),
        mv_high(border, mi_pos, len, mi_count),
        mv,
    )
}

/// A limited component takes the block no further than `border` eighths of a sample
/// beyond the frame on either side; one that does not go further stays, and one
/// that does goes just as far. Units are 64 eighths long.
pub proof fn lemma_limited(mv: int, border: int, mi_pos: int, len: int, mi_count: int)
    requires
        mv_limits_ok(border, mi_pos, len, mi_count),
    ensures
        ({
            let r = limited(mv, border, mi_pos, len, mi_count);
            let start = 64 * mi_pos + mv;
            let end = start + 64 * len;
            &&& -border <= 64 * mi_pos + r
            &&& 64 * mi_pos + r + 64 * len <= 64 * mi_count + border
            &&& -border <= start && end <= 64 * mi_count + border ==> r == mv
            &&& start < -border ==> 64 * mi_pos + r == -border
            &&& end > 64 * mi_count + border ==> 64 * mi_pos + r + 64 * len == 64 * mi_count
                + border
        }),
{
}

/// Limits the row component of a vector.
pub fn clamp_mv_row(mvec: i32, border: i32, mi_row: u32, bh: u32, mi_rows: u32) -> (r: i32)
    requires
        mv_limits_ok(border as int, mi_row as int, bh as int, mi_rows as int),
    ensures
        r == crate::common::spec_clip3(
            mv_low(border as int, mi_row as int),
            mv_high(border as int, mi_row as int, bh as int, mi_rows as int),
            mvec as int,
        ),
        r == limited(mvec as int, border as int, mi_row as int, bh as int, mi_rows as int),
{
    let mb_to_top_edge: i32 = -((mi_row as i32) * MI_SIZE * 8);
    let mb_to_bottom_edge: i32 = ((mi_rows as i32) - (bh as i32) - (mi_row as i32)) * MI_SIZE * 8;
    clamp(mvec, mb_to_top_edge - border, mb_to_bottom_edge + border)
}

/// Limits the column component of a vector.
pub fn clamp_mv_col(mvec: i32, border: i32, mi_col: u32, bw: u32, mi_cols: u32) -> (r: i32)
    requires
        mv_limits_ok(border as int, mi_col as int, bw as int, mi_cols as int),
    ensures
        r == crate::common::spec_clip3(
            mv_low(border as int, mi_col as int),
            mv_high(border as int, mi_col as int, bw as int, mi_cols as int),
            mvec as int,
        ),
        r == limited(mvec as int, border as int, mi_col as int, bw as int, mi_cols as int),
{
    let mb_to_left_edge: i32 = -((mi_col as i32) * MI_SIZE * 8);
    let mb_to_right_edge: i32 = ((mi_cols as i32) - (bw as i32) - (mi_col as i32)) * MI_SIZE * 8;
    clamp(mvec, mb_to_left_edge - border, mb_to_right_edge + border)
}

fn clamp(x: i32, lo: i32, hi: i32) -> (r: i32)
    requires
        lo <= hi,
    ensures
        r == crate::common::spec_clip3(lo as int, hi as int, x as int),
{
    if x < lo {
        lo
    } else if x > hi {
        hi
    } else {
        x
    }
}

/// Whether a candidate is appended to a list: there is room, and it differs
/// from the first entry.
pub open spec fn candidate_added(list: Seq<Mv>, count: int, candidate: Mv) -> bool {
    count < 2 && (count == 0 || candidate@ != list[0]@)
}

/// Appends a candidate to a list of at most two distinct vectors.
pub fn add_mv_ref_list(ref_list_mv: &mut [Mv; 2], ref_mv_count: &mut usize, candidate: Mv)
    ensures
        candidate_added(old(ref_list_mv)@, *old(ref_mv_count) as int, candidate) ==> {
            &&& final(ref_list_mv)@ == old(ref_list_mv)@.update(
                *old(ref_mv_count) as int,
                candidate,
            )
            &&& *final(ref_mv_count) == *old(ref_mv_count) + 1
        },
        !candidate_added(old(ref_list_mv)@, *old(ref_mv_count) as int, candidate) ==> {
            &&& final(ref_list_mv)@ == old(ref_list_mv)@
            &&& *final(ref_mv_count) == *old(ref_mv_count)
        },
{
    let count: usize = *ref_mv_count;
    if count >= 2 {
        return ;
    }
    let first: Mv = ref_list_mv[0];
    if count > 0 && candidate[0] == first[0] && candidate[1] == first[1] {
        assert(candidate@ =~= first@);
        return ;
    }
    ref_list_mv[count] = candidate;
    *ref_mv_count = count + 1;
}

/// A vector for a frame, taken from a vector for another: turned round where the
/// sign biases of the two differ.
pub open spec fn scaled_vector(mv: Seq<i32>, cand: int, target: int, bias: Seq<bool>) -> Seq<i32> {
    if bias[cand] != bias[target] {
        mv.map_values(|c: i32| (-c) as i32)
    } else {
        mv
    }
}

/// Negates a vector where the sign biases of the two frames differ.
pub fn scale_mv(
    candidate_mv: Mv,
    cand_frame: u8,
    ref_frame: u8,
    ref_frame_sign_bias: &[bool; 4],
) -> (r:
    Mv)
    requires
        cand_frame < 4,
        ref_frame < 4,
        ref_frame_sign_bias[cand_frame as int] != ref_frame_sign_bias[ref_frame as int] ==> {
            &&& candidate_mv[0] > i32::MIN
            &&& candidate_mv[1] > i32::MIN
        },
    ensures
        r@ == if ref_frame_sign_bias[cand_frame as int] != ref_frame_sign_bias[ref_frame as int] {
            candidate_mv@.map_values(|c: i32| (-c) as i32)
        } else {
            candidate_mv@
        },
        r@ == scaled_vector(
            candidate_mv@,
            cand_frame as int,
            ref_frame as int,
            ref_frame_sign_bias@,
        ),
{
    if ref_frame_sign_bias[cand_frame as usize] != ref_frame_sign_bias[ref_frame as usize] {
        let r: Mv = [-candidate_mv[0], -candidate_mv[1]];
        assert(r@ =~= candidate_mv@.map_values(|c: i32| (-c) as i32));
        r
    } else {
        candidate_mv
    }
}

/// The magnitude of a component.
pub open spec fn magnitude(c: int) -> int {
    if c < 0 {
        -c
    } else {
        c
    }
}

/// Both components are small enough for high precision.
pub open spec fn precise(mv: Seq<i32>) -> bool {
    magnitude(mv[0] as int) / 8 < COMPANDED_MVREF_THRESH && magnitude(mv[1] as int) / 8
        < COMPANDED_MVREF_THRESH
}

/// Whether both components are small enough for high precision.
pub fn use_mv_hp(delta_mv: Mv) -> (b: bool)
    requires
        delta_mv[0] > i32::MIN,
        magnitude(delta_mv[0] as int) / 8 < COMPANDED_MVREF_THRESH ==> delta_mv[1] > i32::MIN,
    ensures
        b == (magnitude(delta_mv[0] as int) / 8 < COMPANDED_MVREF_THRESH && magnitude(
            delta_mv[1] as int,
        ) / 8 < COMPANDED_MVREF_THRESH),
        b == precise(delta_mv@),
{
    let row: i32 = delta_mv[0];
    let row_abs: i32 = if row < 0 { -row } else { row };
    if row_abs / 8 >= COMPANDED_MVREF_THRESH {
        return false;
    }
    let col: i32 = delta_mv[1];
    let col_abs: i32 = if col < 0 { -col } else { col };
    col_abs / 8 < COMPANDED_MVREF_THRESH
}

/// A list that starts empty never holds the same vector twice, whatever is
/// offered to it.
pub proof fn lemma_list_stays_distinct(list: Seq<Mv>, count: int, candidate: Mv)
    requires
        list.len() == 2,
        0 <= count <= 2,
        count == 2 ==> list[0]@ != list[1]@,
        candidate_added(list, count, candidate),
    ensures
        count + 1 == 2 ==> list.update(count, candidate)[0]@ != list.update(count, candidate)[1]@,
{
}

/// Scaling twice between the same two frames gives the vector back.
pub proof fn lemma_negation_is_an_involution(mv: Mv)
    requires
        mv[0] > i32::MIN,
        mv[1] > i32::MIN,
    ensures
        mv@.map_values(|c: i32| (-c) as i32).map_values(|c: i32| (-c) as i32) == mv@,
{
    assert(mv@.map_values(|c: i32| (-c) as i32).map_values(|c: i32| (-c) as i32) =~= mv@);
}

/// Between frames with the same bias a vector stays; between others both its
/// components change sign. There and back gives the vector again.
pub proof fn lemma_scaled_vector(mv: Seq<i32>, a: int, b: int, bias: Seq<bool>)
    requires
        mv.len() == 2,
        mv[0] > i32::MIN,
        mv[1] > i32::MIN,
        0 <= a < bias.len(),
        0 <= b < bias.len(),
    ensures
        ({
            let r = scaled_vector(mv, a, b, bias);
            &&& bias[a] == bias[b] ==> r == mv
            &&& bias[a] != bias[b] ==> r.len() == 2 && r[0] == -mv[0] && r[1] == -mv[1]
            &&& scaled_vector(r, b, a, bias) == mv
        }),
{
    assert(scaled_vector(scaled_vector(mv, a, b, bias), b, a, bias) =~= mv);
}

/// High precision is used below eight whole samples each way.
pub proof fn lemma_precise(mv: Seq<i32>)
    ensures
        precise(mv) == (-64 < mv[0] < 64 && -64 < mv[1] < 64),
{
}

/// The first candidate always enters an empty list, a second one if it differs from
/// the first, and a third never.
pub proof fn lemma_candidates(list: Seq<Mv>, count: int, candidate: Mv)
    requires
        list.len() == 2,
    ensures
        candidate_added(list, 0, candidate),
        candidate_added(list, 1, candidate) == !(candidate[0] == list[0][0] && candidate[1]
            == list[0][1]),
        count >= 2 ==> !candidate_added(list, count, candidate),
{
    if candidate[0] == list[0][0] && candidate[1] == list[0][1] {
        assert(candidate@ =~= list[0]@);
    } else {
        assert(candidate@[0] == candidate[0] && list[0]@[0] == list[0][0]);
        assert(candidate@[1] == candidate[1] && list[0]@[1] == list[0][1]);
    }
}

} // verus!
