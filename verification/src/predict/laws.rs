//! What intra prediction makes of a plane, in terms of the samples around the
//! block.
//!
//! A directional mode is given by its first row or column, which is a mean of
//! neighbours, and by the direction in which that is copied on.

use vstd::arithmetic::power2::{lemma2_to64, lemma_pow2_pos, lemma_pow2_unfold, pow2};
use vstd::prelude::*;
use crate::framebuffer::Plane;
use crate::prob_tables::{
    D117_PRED, D135_PRED, D153_PRED, D207_PRED, D45_PRED, D63_PRED, DC_PRED, H_PRED, TM_PRED,
    TX_4X4, V_PRED,
};
use super::{block_replaced, side, IntraBlock};

verus! {

/// The block has been predicted in a mode, which turned its plane into `after`.
pub open spec fn intra_predicted(b: IntraBlock, mode: u8, after: Plane) -> bool {
    block_replaced(
        b.plane,
        after,
        b.x,
        b.y,
        side(b.tx_size),
        side(b.tx_size),
        |i: int, j: int| b.predicted(mode, i, j),
    )
}

/// All neighbours of a block of `n` by `n` samples are there, and none is beyond
/// the last column or row that may be read.
pub open spec fn surrounded(b: IntraBlock, n: int) -> bool {
    &&& b.ok()
    &&& b.have_left
    &&& b.have_above
    &&& n == side(b.tx_size)
    &&& b.x + 2 * n - 1 <= b.max_x
    &&& b.y + n - 1 <= b.max_y
}

/// The sample of the plane at row `i` and column `j`, counted from the block.
pub open spec fn near(b: IntraBlock, i: int, j: int) -> int {
    b.plane.at(b.x + j, b.y + i) as int
}

/// The sample that the prediction put at row `i` and column `j` of the block.
pub open spec fn placed(b: IntraBlock, after: Plane, i: int, j: int) -> int {
    after.at(b.x + j, b.y + i) as int
}

proof fn lemma_sides(b: IntraBlock)
    requires
        b.tx_size <= 3,
    ensures
        side(b.tx_size) == 4 || side(b.tx_size) == 8 || side(b.tx_size) == 16 || side(b.tx_size)
            == 32,
        b.tx_size == TX_4X4 <==> side(b.tx_size) == 4,
{
    lemma2_to64();
    assert(b.tx_size == 0 || b.tx_size == 1 || b.tx_size == 2 || b.tx_size == 3);
}

/// What is put is what is predicted, where that is a sample.
proof fn lemma_placed(b: IntraBlock, mode: u8, after: Plane, i: int, j: int)
    requires
        b.ok(),
        intra_predicted(b, mode, after),
        0 <= i < side(b.tx_size),
        0 <= j < side(b.tx_size),
        0 <= b.predicted(mode, i, j) <= 0xffff,
    ensures
        placed(b, after, i, j) == b.predicted(mode, i, j),
{
    assert(b.plane.contains(b.x + j, b.y + i));
}

/// A sample beside the block stays as it is.
pub proof fn lemma_prediction_stays_in_the_block(
    b: IntraBlock,
    mode: u8,
    after: Plane,
    x: int,
    y: int,
)
    requires
        b.ok(),
        intra_predicted(b, mode, after),
        b.plane.contains(x, y),
        x < b.x || b.x + side(b.tx_size) <= x || y < b.y || b.y + side(b.tx_size) <= y,
    ensures
        after.at(x, y) == b.plane.at(x, y),
{
}

/// The vertical mode repeats the row above, the horizontal one the column to the
/// left.
pub proof fn lemma_straight_modes(b: IntraBlock, v: Plane, h: Plane, n: int, i: int, j: int)
    requires
        surrounded(b, n),
        intra_predicted(b, V_PRED, v),
        intra_predicted(b, H_PRED, h),
        0 <= i < n,
        0 <= j < n,
    ensures
        placed(b, v, i, j) == near(b, -1, j),
        placed(b, h, i, j) == near(b, i, -1),
{
    lemma_sides(b);
    lemma_placed(b, V_PRED, v, i, j);
    lemma_placed(b, H_PRED, h, i, j);
}

/// True motion carries the steps along the row above to every row: two samples
/// of a column differ as their left neighbours do, unless a limit is hit.
pub proof fn lemma_true_motion(b: IntraBlock, after: Plane, n: int, i: int, j: int)
    requires
        surrounded(b, n),
        intra_predicted(b, TM_PRED, after),
        0 <= i < n,
        0 <= j < n,
    ensures
        ({
            let sum = near(b, i, -1) + near(b, -1, j) - near(b, -1, -1);
            let top = pow2(b.bit_depth as nat) - 1;
            &&& 0 <= placed(b, after, i, j) <= top
            &&& 0 <= sum <= top ==> placed(b, after, i, j) == sum
            &&& sum < 0 ==> placed(b, after, i, j) == 0
            &&& sum > top ==> placed(b, after, i, j) == top
        }),
{
    lemma_sides(b);
    lemma2_to64();
    lemma_pow2_pos(b.bit_depth as nat);
    if b.bit_depth < 16 {
        vstd::arithmetic::power2::lemma_pow2_strictly_increases(b.bit_depth as nat, 16);
    }
    lemma_placed(b, TM_PRED, after, i, j);
}

/// In mode D135 the first row and column are smoothed neighbours, centred one
/// step up and to the left.
pub proof fn lemma_d135(b: IntraBlock, after: Plane, n: int, k: int)
    requires
        surrounded(b, n),
        intra_predicted(b, D135_PRED, after),
        0 <= k < n,
    ensures
        k == 0 ==> placed(b, after, 0, 0) == (near(b, 0, -1) + 2 * near(b, -1, -1) + near(b, -1, 0)
            + 2) / 4,
        k >= 1 ==> placed(b, after, 0, k) == (near(b, -1, k - 2) + 2 * near(b, -1, k - 1) + near(
            b,
            -1,
            k,
        ) + 2) / 4,
        k == 1 ==> placed(b, after, 1, 0) == (near(b, -1, -1) + 2 * near(b, 0, -1) + near(b, 1, -1)
            + 2) / 4,
        k >= 2 ==> placed(b, after, k, 0) == (near(b, k - 2, -1) + 2 * near(b, k - 1, -1) + near(
            b,
            k,
            -1,
        ) + 2) / 4,
        forall|i: int|
            1 <= i < n && k >= 1 ==> #[trigger] placed(b, after, i, k) == placed(
                b,
                after,
                i - 1,
                k - 1,
            ),
{
    lemma_sides(b);
    lemma_placed(b, D135_PRED, after, 0, k);
    lemma_placed(b, D135_PRED, after, k, 0);
    assert forall|i: int| 1 <= i < n && k >= 1 implies #[trigger] placed(b, after, i, k) == placed(
        b,
        after,
        i - 1,
        k - 1,
    ) by {
        lemma_placed(b, D135_PRED, after, i, k);
        lemma_placed(b, D135_PRED, after, i - 1, k - 1);
    }
}

/// In mode D117 the first two rows are means of the row above, the first column
/// from row 2 on is the smoothed column to the left, centred at row `i - 2`, and
/// everything else comes from two rows up and one column to the left.
pub proof fn lemma_d117(b: IntraBlock, after: Plane, n: int, k: int)
    requires
        surrounded(b, n),
        intra_predicted(b, D117_PRED, after),
        0 <= k < n,
    ensures
        placed(b, after, 0, k) == (near(b, -1, k - 1) + near(b, -1, k) + 1) / 2,
        k == 0 ==> placed(b, after, 1, 0) == (near(b, 0, -1) + 2 * near(b, -1, -1) + near(b, -1, 0)
            + 2) / 4,
        k >= 1 ==> placed(b, after, 1, k) == (near(b, -1, k - 2) + 2 * near(b, -1, k - 1) + near(
            b,
            -1,
            k,
        ) + 2) / 4,
        k == 2 ==> placed(b, after, 2, 0) == (near(b, -1, -1) + 2 * near(b, 0, -1) + near(b, 1, -1)
            + 2) / 4,
        k >= 3 ==> placed(b, after, k, 0) == (near(b, k - 3, -1) + 2 * near(b, k - 2, -1) + near(
            b,
            k - 1,
            -1,
        ) + 2) / 4,
        forall|i: int|
            2 <= i < n && k >= 1 ==> #[trigger] placed(b, after, i, k) == placed(
                b,
                after,
                i - 2,
                k - 1,
            ),
{
    lemma_sides(b);
    lemma_placed(b, D117_PRED, after, 0, k);
    lemma_placed(b, D117_PRED, after, 1, k);
    lemma_placed(b, D117_PRED, after, k, 0);
    assert forall|i: int| 2 <= i < n && k >= 1 implies #[trigger] placed(b, after, i, k) == placed(
        b,
        after,
        i - 2,
        k - 1,
    ) by {
        assert(i / 2 - 1 == (i - 2) / 2);
        lemma_placed(b, D117_PRED, after, i, k);
        lemma_placed(b, D117_PRED, after, i - 2, k - 1);
    }
}

/// In mode D153 the first two columns are means of the column to the left, the
/// first row from column 2 on is the smoothed row above, centred at column
/// `j - 2`, and everything else comes from one row up and two columns to the
/// left.
pub proof fn lemma_d153(b: IntraBlock, after: Plane, n: int, k: int)
    requires
        surrounded(b, n),
        intra_predicted(b, D153_PRED, after),
        0 <= k < n,
    ensures
        placed(b, after, k, 0) == (near(b, k - 1, -1) + near(b, k, -1) + 1) / 2,
        k == 0 ==> placed(b, after, 0, 1) == (near(b, 0, -1) + 2 * near(b, -1, -1) + near(b, -1, 0)
            + 2) / 4,
        k >= 1 ==> placed(b, after, k, 1) == (near(b, k - 2, -1) + 2 * near(b, k - 1, -1) + near(
            b,
            k,
            -1,
        ) + 2) / 4,
        k >= 2 ==> placed(b, after, 0, k) == (near(b, -1, k - 3) + 2 * near(b, -1, k - 2) + near(
            b,
            -1,
            k - 1,
        ) + 2) / 4,
        forall|i: int|
            1 <= i < n && k >= 2 ==> #[trigger] placed(b, after, i, k) == placed(
                b,
                after,
                i - 1,
                k - 2,
            ),
{
    lemma_sides(b);
    lemma_placed(b, D153_PRED, after, k, 0);
    lemma_placed(b, D153_PRED, after, k, 1);
    lemma_placed(b, D153_PRED, after, 0, k);
    assert forall|i: int| 1 <= i < n && k >= 2 implies #[trigger] placed(b, after, i, k) == placed(
        b,
        after,
        i - 1,
        k - 2,
    ) by {
        assert(k / 2 - 1 == (k - 2) / 2);
        lemma_placed(b, D153_PRED, after, i, k);
        lemma_placed(b, D153_PRED, after, i - 1, k - 2);
    }
}

/// In mode D207 the first two columns are means of the column to the left from
/// their row on down, whose last sample goes on below it; everything else comes
/// from one row down and two columns to the left.
pub proof fn lemma_d207(b: IntraBlock, after: Plane, n: int, i: int)
    requires
        surrounded(b, n),
        intra_predicted(b, D207_PRED, after),
        0 <= i < n,
    ensures
        i + 1 < n ==> placed(b, after, i, 0) == (near(b, i, -1) + near(b, i + 1, -1) + 1) / 2,
        i + 2 < n ==> placed(b, after, i, 1) == (near(b, i, -1) + 2 * near(b, i + 1, -1) + near(
            b,
            i + 2,
            -1,
        ) + 2) / 4,
        i + 2 == n ==> placed(b, after, i, 1) == (near(b, i, -1) + 3 * near(b, i + 1, -1) + 2) / 4,
        i + 1 == n ==> forall|j: int| 0 <= j < n ==> #[trigger] placed(b, after, i, j) == near(b, i, -1),
        forall|j: int|
            2 <= j < n && i + 1 < n ==> #[trigger] placed(b, after, i, j) == placed(
                b,
                after,
                i + 1,
                j - 2,
            ),
{
    lemma_sides(b);
    lemma_placed(b, D207_PRED, after, i, 0);
    lemma_placed(b, D207_PRED, after, i, 1);
    assert forall|j: int| 0 <= j < n && i + 1 == n implies #[trigger] placed(b, after, i, j) == near(
        b,
        i,
        -1,
    ) by {
        lemma_placed(b, D207_PRED, after, i, j);
    }
    assert forall|j: int| 2 <= j < n && i + 1 < n implies #[trigger] placed(b, after, i, j)
        == placed(b, after, i + 1, j - 2) by {
        assert(j / 2 - 1 == (j - 2) / 2);
        lemma_placed(b, D207_PRED, after, i, j);
        lemma_placed(b, D207_PRED, after, i + 1, j - 2);
    }
}

/// The column of the `k`-th sample above the block, counted from it: beyond the
/// block the last sample is repeated, unless the block is of the smallest size
/// and the samples to its right are there.
pub open spec fn column_above(b: IntraBlock, n: int, k: int) -> int {
    if k >= n && !(b.tx_size == TX_4X4 && b.not_on_right) {
        n - 1
    } else {
        k
    }
}

/// In mode D45 every sample is a smoothed sample of the row above, as many
/// columns to the right as its row and column add up to, and one more; only the
/// last sample is the last one above.
pub proof fn lemma_d45(b: IntraBlock, after: Plane, n: int, i: int, j: int)
    requires
        surrounded(b, n),
        intra_predicted(b, D45_PRED, after),
        0 <= i < n,
        0 <= j < n,
    ensures
        i + j + 2 < 2 * n ==> placed(b, after, i, j) == (near(b, -1, column_above(b, n, i + j)) + 2
            * near(b, -1, column_above(b, n, i + j + 1)) + near(
            b,
            -1,
            column_above(b, n, i + j + 2),
        ) + 2) / 4,
        i == n - 1 && j == n - 1 ==> placed(b, after, i, j) == near(
            b,
            -1,
            column_above(b, n, 2 * n - 1),
        ),
{
    lemma_sides(b);
    lemma_placed(b, D45_PRED, after, i, j);
}

/// In mode D63 the first row is the mean of two samples above, the second the
/// smoothed row above, and everything else comes from two rows up and one column
/// to the right, beyond the block from the row above.
pub proof fn lemma_d63(b: IntraBlock, after: Plane, n: int, i: int, j: int)
    requires
        surrounded(b, n),
        intra_predicted(b, D63_PRED, after),
        0 <= i < n,
        0 <= j < n,
    ensures
        i % 2 == 0 ==> placed(b, after, i, j) == (near(b, -1, column_above(b, n, j + i / 2))
            + near(b, -1, column_above(b, n, j + i / 2 + 1)) + 1) / 2,
        i % 2 == 1 ==> placed(b, after, i, j) == (near(b, -1, column_above(b, n, j + i / 2)) + 2
            * near(b, -1, column_above(b, n, j + i / 2 + 1)) + near(
            b,
            -1,
            column_above(b, n, j + i / 2 + 2),
        ) + 2) / 4,
        i >= 2 && j + 1 < n ==> placed(b, after, i, j) == placed(b, after, i - 2, j + 1),
{
    lemma_sides(b);
    lemma_placed(b, D63_PRED, after, i, j);
    if i >= 2 && j + 1 < n {
        assert(i / 2 - 1 == (i - 2) / 2);
        lemma_placed(b, D63_PRED, after, i - 2, j + 1);
    }
}

// ---------------------------------------------------------------------------
// The mean.
// ---------------------------------------------------------------------------

/// The sum of `n` samples in a line.
pub open spec fn line_sum(p: Plane, x: int, y: int, dx: int, dy: int, n: nat) -> int
    decreases n,
{
    if n == 0 {
        0
    } else {
        line_sum(p, x, y, dx, dy, (n - 1) as nat) + p.at(x + dx * (n - 1), y + dy * (n - 1))
    }
}

proof fn lemma_line_sums(b: IntraBlock, k: nat, n: int)
    requires
        b.ok(),
        n == side(b.tx_size),
        k <= n,
        b.have_above ==> b.x + n - 1 <= b.max_x,
        b.have_left ==> b.y + n - 1 <= b.max_y,
    ensures
        b.have_above ==> b.above_sum(k) == line_sum(b.plane, b.x, b.y - 1, 1, 0, k),
        b.have_left ==> b.left_sum(k) == line_sum(b.plane, b.x - 1, b.y, 0, 1, k),
        b.have_above ==> 0 <= b.above_sum(k) <= 0xffff * k,
        b.have_left ==> 0 <= b.left_sum(k) <= 0xffff * k,
    decreases k,
{
    if k > 0 {
        lemma_line_sums(b, (k - 1) as nat, n);
    }
}

/// The mean mode puts one value everywhere: the mean of the samples above and to
/// the left, or of those that are there, rounded to the nearest; without any, the
/// middle of the range.
pub proof fn lemma_mean_mode(b: IntraBlock, after: Plane, n: int, i: int, j: int)
    requires
        b.ok(),
        intra_predicted(b, DC_PRED, after),
        n == side(b.tx_size),
        b.have_above ==> b.x + n - 1 <= b.max_x,
        b.have_left ==> b.y + n - 1 <= b.max_y,
        0 <= i < n,
        0 <= j < n,
    ensures
        ({
            let v = placed(b, after, i, j);
            let above = line_sum(b.plane, b.x, b.y - 1, 1, 0, n as nat);
            let left = line_sum(b.plane, b.x - 1, b.y, 0, 1, n as nat);
            &&& b.have_above && b.have_left ==> 2 * n * v - n <= above + left < 2 * n * v + n
            &&& b.have_above && !b.have_left ==> 2 * n * v - n <= 2 * above < 2 * n * v + n
            &&& !b.have_above && b.have_left ==> 2 * n * v - n <= 2 * left < 2 * n * v + n
            &&& !b.have_above && !b.have_left ==> 2 * v == pow2(b.bit_depth as nat)
        }),
{
    lemma_sides(b);
    lemma2_to64();
    lemma_line_sums(b, n as nat, n);
    lemma_pow2_unfold(b.bit_depth as nat);
    if b.bit_depth < 16 {
        vstd::arithmetic::power2::lemma_pow2_strictly_increases(b.bit_depth as nat, 16);
    }
    if b.have_above && b.have_left {
        lemma_rounded_mean(b.left_sum(n as nat) + b.above_sum(n as nat), 2 * n);
    } else if b.have_left {
        lemma_rounded_mean(b.left_sum(n as nat), n);
    } else if b.have_above {
        lemma_rounded_mean(b.above_sum(n as nat), n);
    }
    assert(0 <= b.mean() <= 0xffff);
    lemma_placed(b, DC_PRED, after, i, j);
    assert(n == 4 || n == 8 || n == 16 || n == 32);
    let v = placed(b, after, i, j);
    if n == 4 {
        assert(2 * n * v == 8 * v);
    } else if n == 8 {
        assert(2 * n * v == 16 * v);
    } else if n == 16 {
        assert(2 * n * v == 32 * v);
    } else {
        assert(2 * n * v == 64 * v);
    }
}

proof fn lemma_rounded_mean(sum: int, m: int)
    requires
        m == 4 || m == 8 || m == 16 || m == 32 || m == 64,
        0 <= sum <= 0xffff * m,
    ensures
        ({
            let v = (sum + m / 2) / m;
            m * v - m / 2 <= sum < m * v + m / 2 && 0 <= v <= 0xffff
        }),
{
}

// ---------------------------------------------------------------------------
// Neighbours that are not there.
// ---------------------------------------------------------------------------

proof fn lemma_same_neighbours(b: IntraBlock, c: IntraBlock, mode: u8, i: int, j: int)
    requires
        b.ok(),
        c.ok(),
        c.tx_size == b.tx_size,
        c.bit_depth == b.bit_depth,
        mode <= TM_PRED,
        mode == DC_PRED ==> c.have_left == b.have_left && c.have_above == b.have_above,
        0 <= i < side(b.tx_size),
        0 <= j < side(b.tx_size),
        forall|k: int| -1 <= k < 2 * side(b.tx_size) ==> #[trigger] b.above(k) == c.above(k),
        forall|k: int| 0 <= k < side(b.tx_size) ==> #[trigger] b.left(k) == c.left(k),
    ensures
        b.predicted(mode, i, j) == c.predicted(mode, i, j),
{
    lemma_sides(b);
    lemma_same_sums(b, c, side(b.tx_size) as nat);
}

proof fn lemma_same_sums(b: IntraBlock, c: IntraBlock, n: nat)
    requires
        forall|k: int| 0 <= k < n ==> #[trigger] b.above(k) == c.above(k),
        forall|k: int| 0 <= k < n ==> #[trigger] b.left(k) == c.left(k),
    ensures
        b.above_sum(n) == c.above_sum(n),
        b.left_sum(n) == c.left_sum(n),
    decreases n,
{
    if n > 0 {
        lemma_same_sums(b, c, (n - 1) as nat);
        assert(b.above(n - 1) == c.above(n - 1) && b.left(n - 1) == c.left(n - 1));
    }
}

/// Without a row above, every mode but the mean predicts as it would below a row
/// of samples one under the middle of the range, the corner included.
pub proof fn lemma_missing_row(b: IntraBlock, c: IntraBlock, mode: u8, i: int, j: int)
    requires
        surrounded(c, side(b.tx_size)),
        b == (IntraBlock { have_above: false, plane: b.plane, ..c }),
        b.ok(),
        mode <= TM_PRED,
        mode != DC_PRED,
        forall|k: int|
            -1 <= k < 2 * side(b.tx_size) ==> 2 * (#[trigger] c.plane.at(c.x + k, c.y - 1)) + 2
                == pow2(b.bit_depth as nat),
        forall|k: int|
            0 <= k < side(b.tx_size) ==> #[trigger] c.plane.at(c.x - 1, c.y + k) == b.plane.at(
                b.x - 1,
                b.y + k,
            ),
        0 <= i < side(b.tx_size),
        0 <= j < side(b.tx_size),
    ensures
        b.predicted(mode, i, j) == c.predicted(mode, i, j),
{
    lemma_sides(b);
    lemma_pow2_unfold(b.bit_depth as nat);
    let n = side(b.tx_size);
    assert forall|k: int| -1 <= k < 2 * n implies #[trigger] b.above(k) == c.above(k) by {
        assert(2 * c.plane.at(c.x + k, c.y - 1) + 2 == pow2(b.bit_depth as nat));
        assert(2 * c.plane.at(c.x + (n - 1), c.y - 1) + 2 == pow2(b.bit_depth as nat));
    }
    assert forall|k: int| 0 <= k < n implies #[trigger] b.left(k) == c.left(k) by {
        assert(c.plane.at(c.x - 1, c.y + k) == b.plane.at(b.x - 1, b.y + k));
    }
    lemma_same_neighbours(b, c, mode, i, j);
}

/// Without a column to the left, every mode but the mean predicts as it would
/// beside a column of samples one over the middle of the range, the corner
/// included.
pub proof fn lemma_missing_column(b: IntraBlock, c: IntraBlock, mode: u8, i: int, j: int)
    requires
        surrounded(c, side(b.tx_size)),
        b == (IntraBlock { have_left: false, plane: b.plane, ..c }),
        b.ok(),
        mode <= TM_PRED,
        mode != DC_PRED,
        forall|k: int|
            0 <= k < 2 * side(b.tx_size) ==> #[trigger] c.plane.at(c.x + k, c.y - 1) == b.plane.at(
                b.x + k,
                b.y - 1,
            ),
        forall|k: int|
            -1 <= k < side(b.tx_size) ==> 2 * (#[trigger] c.plane.at(c.x - 1, c.y + k)) - 2 == pow2(
                b.bit_depth as nat,
            ),
        0 <= i < side(b.tx_size),
        0 <= j < side(b.tx_size),
    ensures
        b.predicted(mode, i, j) == c.predicted(mode, i, j),
{
    lemma_sides(b);
    lemma_pow2_unfold(b.bit_depth as nat);
    let n = side(b.tx_size);
    assert forall|k: int| -1 <= k < 2 * n implies #[trigger] b.above(k) == c.above(k) by {
        if k >= 0 {
            assert(c.plane.at(c.x + k, c.y - 1) == b.plane.at(b.x + k, b.y - 1));
            assert(c.plane.at(c.x + (n - 1), c.y - 1) == b.plane.at(b.x + (n - 1), b.y - 1));
        } else {
            let m = -1int;
            assert(2 * c.plane.at(c.x - 1, c.y + m) - 2 == pow2(b.bit_depth as nat));
        }
    }
    assert forall|k: int| 0 <= k < n implies #[trigger] b.left(k) == c.left(k) by {
        assert(2 * c.plane.at(c.x - 1, c.y + k) - 2 == pow2(b.bit_depth as nat));
    }
    lemma_same_neighbours(b, c, mode, i, j);
}

/// Without either, every mode but the mean predicts as it would below a row of samples
/// one under the middle of the range, the corner included, and beside a column of
/// samples one over it.
pub proof fn lemma_missing_both(b: IntraBlock, c: IntraBlock, mode: u8, i: int, j: int)
    requires
        surrounded(c, side(b.tx_size)),
        b == (IntraBlock { have_above: false, have_left: false, plane: b.plane, ..c }),
        b.ok(),
        mode <= TM_PRED,
        mode != DC_PRED,
        forall|k: int|
            -1 <= k < 2 * side(b.tx_size) ==> 2 * (#[trigger] c.plane.at(c.x + k, c.y - 1)) + 2
                == pow2(b.bit_depth as nat),
        forall|k: int|
            0 <= k < side(b.tx_size) ==> 2 * (#[trigger] c.plane.at(c.x - 1, c.y + k)) - 2 == pow2(
                b.bit_depth as nat,
            ),
        0 <= i < side(b.tx_size),
        0 <= j < side(b.tx_size),
    ensures
        b.predicted(mode, i, j) == c.predicted(mode, i, j),
{
    lemma_sides(b);
    lemma_pow2_unfold(b.bit_depth as nat);
    let n = side(b.tx_size);
    assert forall|k: int| -1 <= k < 2 * n implies #[trigger] b.above(k) == c.above(k) by {
        assert(2 * c.plane.at(c.x + k, c.y - 1) + 2 == pow2(b.bit_depth as nat));
        assert(2 * c.plane.at(c.x + (n - 1), c.y - 1) + 2 == pow2(b.bit_depth as nat));
    }
    assert forall|k: int| 0 <= k < n implies #[trigger] b.left(k) == c.left(k) by {
        assert(2 * c.plane.at(c.x - 1, c.y + k) - 2 == pow2(b.bit_depth as nat));
    }
    lemma_same_neighbours(b, c, mode, i, j);
}

/// Samples beyond the last column or row that may be read count as the last ones
/// that may: a block with such a limit is predicted as one without, in a plane
/// where those samples go on.
pub proof fn lemma_limits_repeat_the_last(b: IntraBlock, c: IntraBlock, mode: u8, i: int, j: int)
    requires
        surrounded(c, side(b.tx_size)),
        b == (IntraBlock { max_x: b.max_x, max_y: b.max_y, plane: b.plane, ..c }),
        b.ok(),
        b.x - 1 <= b.max_x,
        b.y <= b.max_y,
        mode <= TM_PRED,
        forall|k: int|
            -1 <= k < 2 * side(b.tx_size) ==> #[trigger] c.plane.at(c.x + k, c.y - 1) == b.plane.at(
                if b.x + k <= b.max_x {
                    b.x + k
                } else {
                    b.max_x
                },
                b.y - 1,
            ),
        forall|k: int|
            0 <= k < side(b.tx_size) ==> #[trigger] c.plane.at(c.x - 1, c.y + k) == b.plane.at(
                b.x - 1,
                if b.y + k <= b.max_y {
                    b.y + k
                } else {
                    b.max_y
                },
            ),
        0 <= i < side(b.tx_size),
        0 <= j < side(b.tx_size),
    ensures
        b.predicted(mode, i, j) == c.predicted(mode, i, j),
{
    lemma_sides(b);
    let n = side(b.tx_size);
    assert forall|k: int| -1 <= k < 2 * n implies #[trigger] b.above(k) == c.above(k) by {
        assert(c.plane.at(c.x + k, c.y - 1) == c.above(k) || k >= n);
        let last = n - 1;
        assert(c.plane.at(c.x + last, c.y - 1) == b.plane.at(
            if b.x + last <= b.max_x {
                b.x + last
            } else {
                b.max_x
            },
            b.y - 1,
        ));
    }
    assert forall|k: int| 0 <= k < n implies #[trigger] b.left(k) == c.left(k) by {
        assert(c.plane.at(c.x - 1, c.y + k) == c.left(k));
    }
    lemma_same_neighbours(b, c, mode, i, j);
}

// ---------------------------------------------------------------------------
// Symmetry.
// ---------------------------------------------------------------------------

/// A block and its mirror image across the diagonal through its corner: what
/// stands above the one stands to the left of the other.
pub open spec fn mirrored(b: IntraBlock, c: IntraBlock, n: int) -> bool {
    &&& surrounded(b, n)
    &&& surrounded(c, n)
    &&& c.bit_depth == b.bit_depth
    &&& forall|k: int| -1 <= k < n ==> #[trigger] near(b, -1, k) == near(c, k, -1)
    &&& forall|k: int| -1 <= k < n ==> #[trigger] near(b, k, -1) == near(c, -1, k)
}

/// Mirroring the neighbours mirrors the prediction: the vertical mode becomes
/// the horizontal one and D117 becomes D153, while D135, true motion and the mean
/// stay.
pub proof fn lemma_mirrored_prediction(b: IntraBlock, c: IntraBlock, n: int, i: int, j: int)
    requires
        mirrored(b, c, n),
        0 <= i < n,
        0 <= j < n,
    ensures
        b.predicted(V_PRED, i, j) == c.predicted(H_PRED, j, i),
        b.predicted(H_PRED, i, j) == c.predicted(V_PRED, j, i),
        b.predicted(D117_PRED, i, j) == c.predicted(D153_PRED, j, i),
        b.predicted(D153_PRED, i, j) == c.predicted(D117_PRED, j, i),
        b.predicted(D135_PRED, i, j) == c.predicted(D135_PRED, j, i),
        b.predicted(TM_PRED, i, j) == c.predicted(TM_PRED, j, i),
        b.predicted(DC_PRED, i, j) == c.predicted(DC_PRED, j, i),
{
    lemma_sides(b);
    lemma_sides(c);
    assert forall|k: int| -1 <= k < n implies #[trigger] b.above(k) == c.edge(-k - 1) by {
        assert(near(b, -1, k) == near(c, k, -1));
    }
    assert forall|k: int| -1 <= k < n implies #[trigger] c.above(k) == b.edge(-k - 1) by {
        assert(near(b, k, -1) == near(c, -1, k));
    }
    assert forall|t: int| -n <= t <= n implies #[trigger] b.edge(t) == c.edge(-t) by {
        if t >= 0 {
            assert(b.above(t - 1) == c.edge(-(t - 1) - 1));
        } else {
            assert(c.above(-t - 1) == b.edge(t));
        }
    }
    assert(b.above(j) == b.edge(j + 1) && c.left(j) == c.edge(-(j + 1)));
    assert(c.above(i) == c.edge(i + 1) && b.left(i) == b.edge(-(i + 1)));
    assert(b.above(-1) == b.edge(0) && c.above(-1) == c.edge(0));
    lemma_mirrored_sums(b, c, n as nat);
}

proof fn lemma_mirrored_sums(b: IntraBlock, c: IntraBlock, k: nat)
    requires
        mirrored(b, c, side(b.tx_size)),
        k <= side(b.tx_size),
    ensures
        b.above_sum(k) == c.left_sum(k),
        b.left_sum(k) == c.above_sum(k),
    decreases k,
{
    lemma_sides(b);
    lemma_sides(c);
    if k > 0 {
        lemma_mirrored_sums(b, c, (k - 1) as nat);
        assert(near(b, -1, k - 1) == near(c, k - 1, -1));
        assert(near(b, k - 1, -1) == near(c, -1, k - 1));
    }
}

} // verus!
