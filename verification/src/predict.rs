//! Prediction: intra prediction from neighbouring samples, and inter prediction
//! from reference frames.

use vstd::arithmetic::power2::{lemma2_to64, lemma_pow2_pos, pow2};
use vstd::prelude::*;
use crate::common::{clip3, power_of_two, spec_clip3};
use crate::framebuffer::Plane;
use crate::prob_tables::{
    D117_PRED, D135_PRED, D153_PRED, D207_PRED, D45_PRED, D63_PRED, DC_PRED, H_PRED, TM_PRED,
    TX_4X4, V_PRED,
};

pub mod inter;
pub mod laws;
pub mod motion;

pub use self::inter::{
    block_inter_predict, predict_inter, InterPredictParams, RefPlaneView, MAX_BLOCK_DIM,
    MAX_INTERMEDIATE_HEIGHT,
};

verus! {

// ---------------------------------------------------------------------------
// What intra prediction computes.
// ---------------------------------------------------------------------------

/// A block to be predicted from its neighbours.
pub struct IntraBlock {
    /// The plane before the prediction.
    pub plane: Plane,
    /// Absolute position of the block.
    pub x: int,
    pub y: int,
    pub have_left: bool,
    pub have_above: bool,
    /// Samples above and to the right of the block are available.
    pub not_on_right: bool,
    pub tx_size: u8,
    /// The last column and row that may be read.
    pub max_x: int,
    pub max_y: int,
    pub bit_depth: int,
}

/// Side of a transform block in samples.
pub open spec fn side(tx_size: u8) -> int {
    4 * (pow2(tx_size as nat) as int)
}

pub open spec fn min(a: int, b: int) -> int {
    if a < b {
        a
    } else {
        b
    }
}

impl IntraBlock {
    /// The value of mid-range samples.
    pub open spec fn base(&self) -> int {
        pow2((self.bit_depth - 1) as nat) as int
    }

    /// The sample above column `i` of the block, from -1 on. Beyond the block
    /// only 4x4 blocks look at samples that are available; others repeat the
    /// last sample above the block. Where nothing is available the samples are
    /// just off mid-range.
    pub open spec fn above(&self, i: int) -> int {
        let n = side(self.tx_size);
        if i < 0 {
            if self.have_above && self.have_left {
                self.plane.at(min(self.x - 1, self.max_x), self.y - 1) as int
            } else if self.have_above {
                self.base() + 1
            } else {
                self.base() - 1
            }
        } else if !self.have_above {
            self.base() - 1
        } else if i < n || (self.not_on_right && self.tx_size == TX_4X4) {
            self.plane.at(min(self.x + i, self.max_x), self.y - 1) as int
        } else {
            self.plane.at(min(self.x + n - 1, self.max_x), self.y - 1) as int
        }
    }

    /// The sample left of row `i` of the block.
    pub open spec fn left(&self, i: int) -> int {
        if self.have_left {
            self.plane.at(self.x - 1, min(self.y + i, self.max_y)) as int
        } else {
            self.base() + 1
        }
    }

    /// The neighbours in one line: 0 is the corner, positive positions go right
    /// along the row above, negative ones down along the column to the left.
    pub open spec fn edge(&self, t: int) -> int {
        if t >= 0 {
            self.above(t - 1)
        } else {
            self.left(-t - 1)
        }
    }

    /// The left column, continued by its last sample.
    pub open spec fn left_extended(&self, k: int) -> int {
        self.left(min(k, side(self.tx_size) - 1))
    }

    /// The first `n` samples above, added up.
    pub open spec fn above_sum(&self, n: nat) -> int
        decreases n,
    {
        if n == 0 {
            0
        } else {
            self.above_sum((n - 1) as nat) + self.above(n - 1)
        }
    }

    /// The first `n` samples to the left, added up.
    pub open spec fn left_sum(&self, n: nat) -> int
        decreases n,
    {
        if n == 0 {
            0
        } else {
            self.left_sum((n - 1) as nat) + self.left(n - 1)
        }
    }

    /// The mean of the neighbours that are available, rounded.
    pub open spec fn mean(&self) -> int {
        let n = side(self.tx_size);
        if self.have_left && self.have_above {
            (self.left_sum(n as nat) + self.above_sum(n as nat) + n) / (2 * n)
        } else if self.have_left {
            (self.left_sum(n as nat) + n / 2) / n
        } else if self.have_above {
            (self.above_sum(n as nat) + n / 2) / n
        } else {
            self.base()
        }
    }

    /// The prediction at row `i` and column `j`.
    pub open spec fn predicted(&self, mode: u8, i: int, j: int) -> int {
        let n = side(self.tx_size);
        if mode == V_PRED {
            self.above(j)
        } else if mode == H_PRED {
            self.left(i)
        } else if mode == D207_PRED {
            let k = i + j / 2;
            if j % 2 == 0 {
                avg2(self.left_extended(k), self.left_extended(k + 1))
            } else {
                avg3(self.left_extended(k), self.left_extended(k + 1), self.left_extended(k + 2))
            }
        } else if mode == D45_PRED {
            let s = i + j;
            if s + 2 < 2 * n {
                avg3(self.above(s), self.above(s + 1), self.above(s + 2))
            } else {
                self.above(2 * n - 1)
            }
        } else if mode == D63_PRED {
            let h = i / 2 + j;
            if i % 2 == 1 {
                avg3(self.above(h), self.above(h + 1), self.above(h + 2))
            } else {
                avg2(self.above(h), self.above(h + 1))
            }
        } else if mode == D117_PRED {
            if j >= i / 2 {
                let c = j - i / 2;
                if i % 2 == 0 {
                    avg2(self.edge(c), self.edge(c + 1))
                } else {
                    avg3(self.edge(c - 1), self.edge(c), self.edge(c + 1))
                }
            } else {
                let r = i - 2 * j;
                avg3(self.edge(2 - r), self.edge(1 - r), self.edge(-r))
            }
        } else if mode == D135_PRED {
            avg3(self.edge(j - i - 1), self.edge(j - i), self.edge(j - i + 1))
        } else if mode == D153_PRED {
            if i >= j / 2 {
                let r = i - j / 2;
                if j % 2 == 0 {
                    avg2(self.edge(-r), self.edge(-r - 1))
                } else {
                    avg3(self.edge(1 - r), self.edge(-r), self.edge(-r - 1))
                }
            } else {
                let c = j - 2 * i;
                avg3(self.edge(c - 2), self.edge(c - 1), self.edge(c))
            }
        } else if mode == TM_PRED {
            spec_clip3(
                0,
                pow2(self.bit_depth as nat) - 1,
                self.above(j) + self.left(i) - self.above(-1),
            )
        } else {
            self.mean()
        }
    }

    /// The block lies in the plane, and so do the neighbours that are read.
    pub open spec fn ok(&self) -> bool {
        let n = side(self.tx_size);
        &&& self.plane.wf()
        &&& self.tx_size <= 3
        &&& 1 <= self.bit_depth <= 16
        &&& self.plane.x0 + self.plane.width <= usize::MAX
        &&& self.plane.contains(self.x, self.y)
        &&& self.plane.contains(self.x + n - 1, self.y + n - 1)
        &&& self.have_above ==> {
            &&& self.y >= 1
            &&& self.plane.contains(min(self.x, self.max_x), self.y - 1)
            &&& self.not_on_right && self.tx_size == TX_4X4 ==> {
                &&& self.x + 2 * n <= usize::MAX
                &&& self.plane.contains(min(self.x + 2 * n - 1, self.max_x), self.y - 1)
            }
        }
        &&& self.have_left ==> {
            &&& self.x >= 1
            &&& self.plane.contains(self.x - 1, min(self.y, self.max_y))
            &&& self.have_above ==> self.plane.contains(min(self.x - 1, self.max_x), self.y - 1)
        }
    }
}

/// The mean of two samples, rounded.
pub open spec fn avg2(a: int, b: int) -> int {
    (a + b + 1) / 2
}

/// The mean of three samples, the middle one counted twice, rounded.
pub open spec fn avg3(a: int, b: int, c: int) -> int {
    (a + 2 * b + c + 2) / 4
}

// ---------------------------------------------------------------------------
// Laws of the directional modes.
// ---------------------------------------------------------------------------

/// Every directional mode copies along its direction: one step back along it
/// the prediction is the same.
pub proof fn lemma_directional_copy(b: IntraBlock, i: int, j: int)
    requires
        b.ok(),
        0 <= i < side(b.tx_size),
        0 <= j < side(b.tx_size),
    ensures
        i >= 2 && j >= 1 ==> b.predicted(D117_PRED, i, j) == b.predicted(D117_PRED, i - 2, j - 1),
        i >= 1 && j >= 1 ==> b.predicted(D135_PRED, i, j) == b.predicted(D135_PRED, i - 1, j - 1),
        i >= 1 && j >= 2 ==> b.predicted(D153_PRED, i, j) == b.predicted(D153_PRED, i - 1, j - 2),
        i >= 1 && j + 1 < side(b.tx_size) ==> b.predicted(D45_PRED, i, j) == b.predicted(
            D45_PRED,
            i - 1,
            j + 1,
        ),
        i >= 2 && j + 1 < side(b.tx_size) ==> b.predicted(D63_PRED, i, j) == b.predicted(
            D63_PRED,
            i - 2,
            j + 1,
        ),
        i + 1 < side(b.tx_size) && j >= 2 ==> b.predicted(D207_PRED, i, j) == b.predicted(
            D207_PRED,
            i + 1,
            j - 2,
        ),
{
    if i >= 2 && j >= 1 {
        assert(i / 2 - 1 == (i - 2) / 2);
    }
    if j >= 2 {
        assert(j / 2 - 1 == (j - 2) / 2);
    }
}

/// Where nothing is available, the mean and the vertical and horizontal modes
/// predict a constant near mid-range.
pub proof fn lemma_no_neighbours(b: IntraBlock, i: int, j: int)
    requires
        b.ok(),
        !b.have_left,
        !b.have_above,
        0 <= i < side(b.tx_size),
        0 <= j < side(b.tx_size),
    ensures
        b.predicted(DC_PRED, i, j) == b.base(),
        b.predicted(V_PRED, i, j) == b.base() - 1,
        b.predicted(H_PRED, i, j) == b.base() + 1,
{
}

proof fn lemma_sums_within(b: IntraBlock, n: nat, bound: int)
    requires
        forall|k: int| 0 <= k < n ==> 0 <= #[trigger] b.above(k) <= bound,
        forall|k: int| 0 <= k < n ==> 0 <= #[trigger] b.left(k) <= bound,
    ensures
        0 <= b.above_sum(n) <= n * bound,
        0 <= b.left_sum(n) <= n * bound,
    decreases n,
{
    if n > 0 {
        lemma_sums_within(b, (n - 1) as nat, bound);
        assert((n - 1) * bound + bound == n * bound) by (nonlinear_arith);
        assert(0 <= b.above(n - 1) <= bound && 0 <= b.left(n - 1) <= bound);
    } else {
        assert(0 * bound == 0);
    }
}

proof fn lemma_neighbours_range(b: IntraBlock)
    requires
        b.ok(),
        2 <= b.bit_depth,
        forall|x: int, y: int|
            b.plane.contains(x, y) ==> #[trigger] b.plane.at(x, y) < pow2(b.bit_depth as nat),
    ensures
        forall|k: int|
            -1 <= k < 2 * side(b.tx_size) ==> 0 <= #[trigger] b.above(k) < pow2(b.bit_depth as nat),
        forall|k: int|
            0 <= k < side(b.tx_size) ==> 0 <= #[trigger] b.left(k) < pow2(b.bit_depth as nat),
        0 < b.base() < pow2(b.bit_depth as nat),
{
    lemma2_to64();
    let n = side(b.tx_size);
    assert(b.tx_size == 0 || b.tx_size == 1 || b.tx_size == 2 || b.tx_size == 3);
    vstd::arithmetic::power2::lemma_pow2_unfold(b.bit_depth as nat);
    vstd::arithmetic::power2::lemma_pow2_unfold((b.bit_depth - 1) as nat);
    lemma_pow2_pos((b.bit_depth - 2) as nat);
    assert forall|k: int| -1 <= k < 2 * n implies 0 <= #[trigger] b.above(k) < pow2(
        b.bit_depth as nat,
    ) by {
        if b.have_above {
            if k < 0 {
                if b.have_left {
                    assert(b.plane.contains(min(b.x - 1, b.max_x), b.y - 1));
                }
            } else if k < n || (b.not_on_right && b.tx_size == TX_4X4) {
                assert(b.plane.contains(min(b.x + k, b.max_x), b.y - 1));
            } else {
                assert(b.plane.contains(min(b.x + n - 1, b.max_x), b.y - 1));
            }
        }
    }
    assert forall|k: int| 0 <= k < n implies 0 <= #[trigger] b.left(k) < pow2(b.bit_depth as nat) by {
        if b.have_left {
            assert(b.plane.contains(b.x - 1, min(b.y + k, b.max_y)));
        }
    }
}

/// A prediction from samples within the range of the bit depth is within it.
#[verifier::spinoff_prover]
pub proof fn lemma_prediction_in_range(b: IntraBlock, mode: u8, i: int, j: int)
    requires
        b.ok(),
        2 <= b.bit_depth,
        forall|x: int, y: int|
            b.plane.contains(x, y) ==> #[trigger] b.plane.at(x, y) < pow2(b.bit_depth as nat),
        0 <= i < side(b.tx_size),
        0 <= j < side(b.tx_size),
    ensures
        0 <= b.predicted(mode, i, j) < pow2(b.bit_depth as nat),
{
    lemma2_to64();
    lemma_neighbours_range(b);
    let n = side(b.tx_size);
    let top = pow2(b.bit_depth as nat) - 1;
    assert(b.tx_size == 0 || b.tx_size == 1 || b.tx_size == 2 || b.tx_size == 3);
    lemma_sums_within(b, n as nat, top);
    assert(0 <= b.mean() <= top) by {
        if b.have_left && b.have_above {
            assert((b.left_sum(n as nat) + b.above_sum(n as nat) + n) / (2 * n) <= top)
                by (nonlinear_arith)
                requires
                    b.left_sum(n as nat) <= n * top,
                    b.above_sum(n as nat) <= n * top,
                    n >= 4,
            ;
        } else if b.have_left {
            assert((b.left_sum(n as nat) + n / 2) / n <= top) by (nonlinear_arith)
                requires
                    b.left_sum(n as nat) <= n * top,
                    n >= 4,
            ;
        } else if b.have_above {
            assert((b.above_sum(n as nat) + n / 2) / n <= top) by (nonlinear_arith)
                requires
                    b.above_sum(n as nat) <= n * top,
                    n >= 4,
            ;
        }
    }
}

// ---------------------------------------------------------------------------
// Intra prediction.
// ---------------------------------------------------------------------------

/// The neighbours of a block: the row above from the corner on, and the column
/// to the left.
struct Neighbours {
    above_row: [i32; 65],
    left_col: [i32; 32],
}

impl Neighbours {
    /// The neighbours are those of the block.
    spec fn of(&self, b: IntraBlock) -> bool {
        let n = side(b.tx_size);
        &&& forall|i: int|
            0 <= i <= 2 * n ==> #[trigger] self.above_row[i] == b.above(i - 1) && 0
                <= self.above_row[i] <= 0xffff
        &&& forall|i: int|
            0 <= i < n ==> #[trigger] self.left_col[i] == b.left(i) && 0 <= self.left_col[i]
                <= 0xffff
    }

    fn above(&self, i: i32, Ghost(b): Ghost<IntraBlock>) -> (v: i32)
        requires
            self.of(b),
            b.ok(),
            -1 <= i < 2 * side(b.tx_size),
        ensures
            v == b.above(i as int),
            0 <= v <= 0xffff,
    {
        proof {
            lemma2_to64();
            assert(self.above_row[i + 1] == b.above(i + 1 - 1));
        }
        self.above_row[(i + 1) as usize]
    }

    fn left(&self, i: i32, Ghost(b): Ghost<IntraBlock>) -> (v: i32)
        requires
            self.of(b),
            b.ok(),
            0 <= i < side(b.tx_size),
        ensures
            v == b.left(i as int),
            0 <= v <= 0xffff,
    {
        proof {
            lemma2_to64();
        }
        self.left_col[i as usize]
    }

    fn edge(&self, t: i32, Ghost(b): Ghost<IntraBlock>) -> (v: i32)
        requires
            self.of(b),
            b.ok(),
            -side(b.tx_size) <= t <= 2 * side(b.tx_size),
        ensures
            v == b.edge(t as int),
            0 <= v <= 0xffff,
    {
        proof {
            lemma2_to64();
        }
        if t >= 0 {
            self.above(t - 1, Ghost(b))
        } else {
            self.left(-t - 1, Ghost(b))
        }
    }

    fn left_extended(&self, k: i32, size: i32, Ghost(b): Ghost<IntraBlock>) -> (v: i32)
        requires
            self.of(b),
            b.ok(),
            size == side(b.tx_size),
            0 <= k,
        ensures
            v == b.left_extended(k as int),
            0 <= v <= 0xffff,
    {
        proof {
            lemma2_to64();
        }
        if k < size - 1 {
            self.left(k, Ghost(b))
        } else {
            self.left(size - 1, Ghost(b))
        }
    }
}

fn mean2(a: i32, b: i32) -> (v: i32)
    requires
        0 <= a <= 0xffff,
        0 <= b <= 0xffff,
    ensures
        v == avg2(a as int, b as int),
        0 <= v <= 0xffff,
{
    (a + b + 1) / 2
}

fn mean3(a: i32, b: i32, c: i32) -> (v: i32)
    requires
        0 <= a <= 0xffff,
        0 <= b <= 0xffff,
        0 <= c <= 0xffff,
    ensures
        v == avg3(a as int, b as int, c as int),
        0 <= v <= 0xffff,
{
    (a + 2 * b + c + 2) / 4
}

/// Reads the neighbours of a block.
fn read_neighbours(
    plane: &Plane,
    x: usize,
    y: usize,
    have_left: bool,
    have_above: bool,
    not_on_right: bool,
    tx_size: u8,
    size: usize,
    base: i32,
    max_x: usize,
    max_y: usize,
    Ghost(b): Ghost<IntraBlock>,
) -> (nb: Neighbours)
    requires
        b.ok(),
        b.plane == *plane,
        b.x == x,
        b.y == y,
        b.have_left == have_left,
        b.have_above == have_above,
        b.not_on_right == not_on_right,
        b.tx_size == tx_size,
        b.max_x == max_x,
        b.max_y == max_y,
        size == side(tx_size),
        base == b.base(),
        1 <= base <= 0x8000,
    ensures
        nb.of(b),
{
    proof {
        lemma2_to64();
    }
    let mut above_row: [i32; 65] = [0; 65];
    let right_available: bool = have_above && not_on_right && tx_size == TX_4X4;
    for i in 0..2 * size
        invariant
            b.ok(),
            b.plane == *plane,
            b.x == x,
            b.y == y,
            b.have_left == have_left,
            b.have_above == have_above,
            b.not_on_right == not_on_right,
            b.tx_size == tx_size,
            b.max_x == max_x,
            b.max_y == max_y,
            size == side(tx_size),
            4 <= size <= 32,
            base == b.base(),
            1 <= base <= 0x8000,
            right_available == (have_above && not_on_right && tx_size == TX_4X4),
            forall|k: int|
                1 <= k <= i ==> #[trigger] above_row[k] == b.above(k - 1) && 0 <= above_row[k]
                    <= 0xffff,
    {
        let v: i32 = if !have_above {
            base - 1
        } else {
            let k: usize = if i < size || right_available { i } else { size - 1 };
            let sx: usize = if x + k < max_x { x + k } else { max_x };
            plane.get(sx, y - 1) as i32
        };
        above_row[i + 1] = v;
    }
    let corner: i32 = if have_above && have_left {
        let sx: usize = if x - 1 < max_x { x - 1 } else { max_x };
        plane.get(sx, y - 1) as i32
    } else if have_above {
        base + 1
    } else {
        base - 1
    };
    above_row[0] = corner;
    let mut left_col: [i32; 32] = [0; 32];
    for i in 0..size
        invariant
            b.ok(),
            b.plane == *plane,
            b.x == x,
            b.y == y,
            b.have_left == have_left,
            b.tx_size == tx_size,
            b.max_y == max_y,
            size == side(tx_size),
            4 <= size <= 32,
            base == b.base(),
            1 <= base <= 0x8000,
            forall|k: int|
                0 <= k < i ==> #[trigger] left_col[k] == b.left(k) && 0 <= left_col[k] <= 0xffff,
    {
        let v: i32 = if have_left {
            let sy: usize = if y + i < max_y { y + i } else { max_y };
            plane.get(x - 1, sy) as i32
        } else {
            base + 1
        };
        left_col[i] = v;
    }
    Neighbours { above_row, left_col }
}

/// The sums of the neighbours are small.
proof fn lemma_sums_range(b: IntraBlock, nb: Neighbours, n: nat)
    requires
        nb.of(b),
        n <= side(b.tx_size),
    ensures
        0 <= b.above_sum(n) <= 0xffff * n,
        0 <= b.left_sum(n) <= 0xffff * n,
    decreases n,
{
    if n > 0 {
        lemma_sums_range(b, nb, (n - 1) as nat);
        assert(nb.above_row[n as int] == b.above(n - 1));
        assert(nb.left_col[n - 1] == b.left(n - 1));
    }
}

/// Computes the mean of the neighbours that are available.
fn neighbour_mean(
    nb: &Neighbours,
    have_left: bool,
    have_above: bool,
    size: usize,
    base: i32,
    Ghost(b): Ghost<IntraBlock>,
) -> (v: i32)
    requires
        nb.of(b),
        b.ok(),
        b.have_left == have_left,
        b.have_above == have_above,
        size == side(b.tx_size),
        base == b.base(),
        1 <= base <= 0x8000,
    ensures
        v == b.mean(),
        0 <= v <= 0xffff,
{
    proof {
        lemma2_to64();
    }
    let n: i32 = size as i32;
    let mut above_total: i32 = 0;
    let mut left_total: i32 = 0;
    for k in 0..size
        invariant
            nb.of(b),
            b.ok(),
            4 <= size <= 32,
            size == side(b.tx_size),
            above_total == b.above_sum(k as nat),
            left_total == b.left_sum(k as nat),
    {
        proof {
            lemma_sums_range(b, *nb, k as nat);
        }
        above_total = above_total + nb.above(k as i32, Ghost(b));
        left_total = left_total + nb.left(k as i32, Ghost(b));
    }
    proof {
        lemma_sums_range(b, *nb, size as nat);
    }
    let v: i32 = if have_left && have_above {
        (left_total + above_total + n) / (2 * n)
    } else if have_left {
        (left_total + n / 2) / n
    } else if have_above {
        (above_total + n / 2) / n
    } else {
        base
    };
    proof {
        let s = size as int;
        let both = left_total + above_total;
        assert(0 <= left_total <= 0xffff * s);
        assert(0 <= above_total <= 0xffff * s);
        assert(both <= 0xffff * s + 0xffff * s);
        assert((both + s) / (2 * s) <= 0xffff) by (nonlinear_arith)
            requires
                0 <= both <= 0xffff * s + 0xffff * s,
                1 <= s,
        ;
        assert((left_total + s / 2) / s <= 0xffff) by (nonlinear_arith)
            requires
                0 <= left_total <= 0xffff * s,
                1 <= s,
                0 <= s / 2 < s,
        ;
        assert((above_total + s / 2) / s <= 0xffff) by (nonlinear_arith)
            requires
                0 <= above_total <= 0xffff * s,
                1 <= s,
                0 <= s / 2 < s,
        ;
    }
    v
}

/// Computes the prediction at row `i` and column `j`.
fn predict_sample(
    nb: &Neighbours,
    mode: u8,
    size: usize,
    mean: i32,
    max_value: i32,
    i: i32,
    j: i32,
    Ghost(b): Ghost<IntraBlock>,
) -> (v: i32)
    requires
        nb.of(b),
        b.ok(),
        mode <= TM_PRED,
        size == side(b.tx_size),
        mode == DC_PRED ==> mean == b.mean() && 0 <= mean <= 0xffff,
        max_value == pow2(b.bit_depth as nat) - 1,
        0 <= max_value <= 0xffff,
        0 <= i < size,
        0 <= j < size,
    ensures
        v == b.predicted(mode, i as int, j as int),
        0 <= v <= 0xffff,
{
    proof {
        lemma2_to64();
    }
    let n: i32 = size as i32;
    if mode == V_PRED {
        nb.above(j, Ghost(b))
    } else if mode == H_PRED {
        nb.left(i, Ghost(b))
    } else if mode == D207_PRED {
        let k: i32 = i + j / 2;
        if j % 2 == 0 {
            mean2(nb.left_extended(k, n, Ghost(b)), nb.left_extended(k + 1, n, Ghost(b)))
        } else {
            mean3(
                nb.left_extended(k, n, Ghost(b)),
                nb.left_extended(k + 1, n, Ghost(b)),
                nb.left_extended(k + 2, n, Ghost(b)),
            )
        }
    } else if mode == D45_PRED {
        let s: i32 = i + j;
        if s + 2 < 2 * n {
            mean3(
                nb.above(s, Ghost(b)),
                nb.above(s + 1, Ghost(b)),
                nb.above(s + 2, Ghost(b)),
            )
        } else {
            nb.above(2 * n - 1, Ghost(b))
        }
    } else if mode == D63_PRED {
        let h: i32 = i / 2 + j;
        if i % 2 == 1 {
            mean3(
                nb.above(h, Ghost(b)),
                nb.above(h + 1, Ghost(b)),
                nb.above(h + 2, Ghost(b)),
            )
        } else {
            mean2(nb.above(h, Ghost(b)), nb.above(h + 1, Ghost(b)))
        }
    } else if mode == D117_PRED {
        if j >= i / 2 {
            let c: i32 = j - i / 2;
            if i % 2 == 0 {
                mean2(nb.edge(c, Ghost(b)), nb.edge(c + 1, Ghost(b)))
            } else {
                mean3(
                    nb.edge(c - 1, Ghost(b)),
                    nb.edge(c, Ghost(b)),
                    nb.edge(c + 1, Ghost(b)),
                )
            }
        } else {
            let r: i32 = i - 2 * j;
            mean3(nb.edge(2 - r, Ghost(b)), nb.edge(1 - r, Ghost(b)), nb.edge(-r, Ghost(b)))
        }
    } else if mode == D135_PRED {
        mean3(
            nb.edge(j - i - 1, Ghost(b)),
            nb.edge(j - i, Ghost(b)),
            nb.edge(j - i + 1, Ghost(b)),
        )
    } else if mode == D153_PRED {
        if i >= j / 2 {
            let r: i32 = i - j / 2;
            if j % 2 == 0 {
                mean2(nb.edge(-r, Ghost(b)), nb.edge(-r - 1, Ghost(b)))
            } else {
                mean3(
                    nb.edge(1 - r, Ghost(b)),
                    nb.edge(-r, Ghost(b)),
                    nb.edge(-r - 1, Ghost(b)),
                )
            }
        } else {
            let c: i32 = j - 2 * i;
            mean3(nb.edge(c - 2, Ghost(b)), nb.edge(c - 1, Ghost(b)), nb.edge(c, Ghost(b)))
        }
    } else if mode == TM_PRED {
        clip3(
            0,
            max_value,
            nb.above(j, Ghost(b)) + nb.left(i, Ghost(b)) - nb.above(-1, Ghost(b)),
        )
    } else {
        mean
    }
}

/// What a prediction makes of the plane: the block's samples are replaced,
/// nothing else changes.
pub open spec fn block_replaced(
    before: Plane,
    after: Plane,
    x: int,
    y: int,
    w: int,
    h: int,
    value: spec_fn(int, int) -> int,
) -> bool {
    &&& after.wf()
    &&& after.same_shape(&before)
    &&& forall|cx: int, cy: int|
        before.contains(cx, cy) ==> #[trigger] after.at(cx, cy) == if x <= cx < x + w && y <= cy < y
            + h {
            value(cy - y, cx - x) as u16
        } else {
            before.at(cx, cy)
        }
}

/// Predicts a transform block from its neighbours. `x` and `y` are the block's
/// absolute position; `max_x` and `max_y` the last column and row that may be
/// read.
#[verifier::rlimit(40)]
pub fn predict_intra(
    plane: &mut Plane,
    x: usize,
    y: usize,
    have_left: bool,
    have_above: bool,
    not_on_right: bool,
    tx_size: u8,
    mode: u8,
    max_x: usize,
    max_y: usize,
    bit_depth: u8,
)
    requires
        mode <= TM_PRED,
        (IntraBlock {
            plane: *old(plane),
            x: x as int,
            y: y as int,
            have_left,
            have_above,
            not_on_right,
            tx_size,
            max_x: max_x as int,
            max_y: max_y as int,
            bit_depth: bit_depth as int,
        }).ok(),
    ensures
        block_replaced(
            *old(plane),
            *final(plane),
            x as int,
            y as int,
            side(tx_size),
            side(tx_size),
            |i: int, j: int|
                (IntraBlock {
                    plane: *old(plane),
                    x: x as int,
                    y: y as int,
                    have_left,
                    have_above,
                    not_on_right,
                    tx_size,
                    max_x: max_x as int,
                    max_y: max_y as int,
                    bit_depth: bit_depth as int,
                }).predicted(mode, i, j),
        ),
{
    let ghost b = IntraBlock {
        plane: *plane,
        x: x as int,
        y: y as int,
        have_left,
        have_above,
        not_on_right,
        tx_size,
        max_x: max_x as int,
        max_y: max_y as int,
        bit_depth: bit_depth as int,
    };
    let ghost before = *plane;
    proof {
        lemma2_to64();
    }
    let size: usize = 4 * power_of_two(tx_size as u32) as usize;
    let base: i32 = power_of_two((bit_depth - 1) as u32) as i32;
    let max_value: i32 = (power_of_two(bit_depth as u32) - 1) as i32;
    let nb: Neighbours = read_neighbours(
        plane,
        x,
        y,
        have_left,
        have_above,
        not_on_right,
        tx_size,
        size,
        base,
        max_x,
        max_y,
        Ghost(b),
    );
    let mean: i32 = if mode == DC_PRED {
        neighbour_mean(&nb, have_left, have_above, size, base, Ghost(b))
    } else {
        0
    };
    for i in 0..size
        invariant
            b.ok(),
            b.plane == before,
            b.x == x,
            b.y == y,
            b.tx_size == tx_size,
            b.bit_depth == bit_depth,
            nb.of(b),
            mode <= TM_PRED,
            4 <= size <= 32,
            size == side(tx_size),
            mode == DC_PRED ==> mean == b.mean() && 0 <= mean <= 0xffff,
            max_value == pow2(bit_depth as nat) - 1,
            0 <= max_value <= 0xffff,
            plane.wf(),
            plane.same_shape(&before),
            forall|cx: int, cy: int|
                before.contains(cx, cy) ==> #[trigger] plane.at(cx, cy) == if x <= cx < x + size && y
                    <= cy < y + i {
                    b.predicted(mode, cy - y, cx - x) as u16
                } else {
                    before.at(cx, cy)
                },
    {
        for j in 0..size
            invariant
                b.ok(),
                b.plane == before,
                b.x == x,
                b.y == y,
                b.tx_size == tx_size,
                b.bit_depth == bit_depth,
                nb.of(b),
                mode <= TM_PRED,
                4 <= size <= 32,
                i < size,
                size == side(tx_size),
                mode == DC_PRED ==> mean == b.mean() && 0 <= mean <= 0xffff,
                max_value == pow2(bit_depth as nat) - 1,
                0 <= max_value <= 0xffff,
                plane.wf(),
                plane.same_shape(&before),
                forall|cx: int, cy: int|
                    before.contains(cx, cy) ==> #[trigger] plane.at(cx, cy) == if (x <= cx < x + size
                        && y <= cy < y + i) || (cy == y + i && x <= cx < x + j) {
                        b.predicted(mode, cy - y, cx - x) as u16
                    } else {
                        before.at(cx, cy)
                    },
        {
            let v: i32 = predict_sample(
                &nb,
                mode,
                size,
                mean,
                max_value,
                i as i32,
                j as i32,
                Ghost(b),
            );
            plane.set(x + j, y + i, v as u16);
        }
    }
}

} // verus!
