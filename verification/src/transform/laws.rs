//! What the inverse transforms make of a block, in terms of coefficients and
//! samples: roundings, the mean coefficient, and how a residual is added.

use vstd::arithmetic::power2::{lemma2_to64, pow2};
use vstd::prelude::*;
use crate::framebuffer::{lemma_row_major, row_major};
use crate::transform::zero::lemma_dct_zero;
use crate::transform::{
    block_row, brev, cos64, dct_network, dct_permuted, final_shift, final_sums, half_rotations,
    half_sums, inverse_dct, middle_rotations, narrowed, neighbour_sums, odd_rotations,
    quarter_rotations, quarter_sums, reconstructed, residual_block, rounded14, run, run_all,
    shifted, sin64, step, transformed_pass, transformed_row, wrap32, Op,
};

verus! {

/// A product sum in units of `2^-14` is rounded to the nearest whole number, halves
/// up, where it fits.
pub proof fn lemma_rounding(v: int, hbd: bool)
    requires
        -0x4000_0000 <= v <= 0x4000_0000,
    ensures
        16384 * rounded14(v, hbd) - 8192 <= v < 16384 * rounded14(v, hbd) + 8192,
{
}

/// Sums of samples with a high bit depth may be larger.
pub proof fn lemma_wide_rounding(v: int)
    requires
        -0x1000_0000_0000 <= v <= 0x1000_0000_0000,
    ensures
        16384 * rounded14(v, true) - 8192 <= v < 16384 * rounded14(v, true) + 8192,
{
}

/// The last scaling divides by 16, 32, 64 and 64 for blocks of side 4, 8, 16 and 32,
/// and rounds to the nearest, halves up.
pub proof fn lemma_final_rounding(v: int, n: nat)
    requires
        2 <= n <= 5,
        -0x4000_0000 <= v <= 0x4000_0000,
    ensures
        ({
            let r = shifted(v, final_shift(n));
            &&& n == 2 ==> 16 * r - 8 <= v < 16 * r + 8
            &&& n == 3 ==> 32 * r - 16 <= v < 32 * r + 16
            &&& n >= 4 ==> 64 * r - 32 <= v < 64 * r + 32
        }),
{
    lemma2_to64();
    assert(
        final_shift(2) == 4 && final_shift(3) == 5 && final_shift(4) == 6 && final_shift(5) == 6
    );
    assert(n == 2 || n == 3 || n == 4 || n == 5);
}

/// A residual is added to the samples of its block, row by row, and the sums are
/// limited to the range of samples.
pub proof fn lemma_residual_is_added(
    data: Seq<u16>,
    width: int,
    start_x: int,
    start_y: int,
    residual: Seq<i32>,
    n0: int,
    max: int,
    i: int,
    j: int,
)
    requires
        0 <= start_x,
        0 <= start_y,
        0 <= i < n0,
        0 <= j < n0,
        start_x + n0 <= width,
        (start_y + n0) * width <= data.len(),
        0 <= max <= 0xffff,
        residual.len() == n0 * n0,
        -0x4000_0000 <= residual[i * n0 + j] <= 0x4000_0000,
    ensures
        ({
            let p = (start_y + i) * width + start_x + j;
            let sum = data[p] + residual[i * n0 + j];
            let out = reconstructed(data, width, start_x, start_y, residual, n0, max);
            &&& 0 <= p < data.len()
            &&& out.len() == data.len()
            &&& sum < 0 ==> out[p] == 0
            &&& sum > max ==> out[p] == max
            &&& 0 <= sum <= max ==> out[p] == sum
        }),
{
    lemma_row_major(width, start_y + n0, start_x + j, start_y + i);
    let p = row_major(width, start_x + j, start_y + i);
    assert(p == (start_y + i) * width + start_x + j);
    assert(width * (start_y + n0) == (start_y + n0) * width) by (nonlinear_arith);
    assert(row_major(n0, j, i) == i * n0 + j);
}

/// Cosines and sines of the table: the whole turn has 128 steps, and they are related
/// as they should be.
pub proof fn lemma_turn(a: int)
    ensures
        cos64(a + 128) == cos64(a),
        cos64(-a) == cos64(a),
        cos64(64 - a) == -cos64(a),
        sin64(a) == cos64(32 - a),
        cos64(0) == 16384,
        cos64(16) == 11585,
        cos64(32) == 0,
{
    let r = a % 128;
    assert((a + 128) % 128 == r);
    assert((-a) % 128 == if r == 0 {
        0
    } else {
        128 - r
    });
    assert((64 - a) % 128 == if r <= 64 {
        64 - r
    } else {
        192 - r
    });
    assert((a - 32) % 128 == if r >= 32 {
        r - 32
    } else {
        r + 96
    });
    assert((32 - a) % 128 == if r <= 32 {
        32 - r
    } else {
        160 - r
    });
    if r == 0 || r == 32 || r == 64 || r == 96 {
        assert(crate::transform::COS64_TABLE[32] == 0);
        assert(crate::transform::COS64_TABLE[0] == 16384);
    }
}

// ---------------------------------------------------------------------------
// The mean coefficient.
// ---------------------------------------------------------------------------

/// The values from `lo` to `hi` are 0.
spec fn quiet(t: Seq<i32>, lo: int, hi: int) -> bool {
    t.len() == 32 && forall|k: int| lo <= k < hi ==> #[trigger] t[k] == 0
}

/// The operation works on two of the values from `lo` to `hi`.
spec fn op_in(op: Op, lo: int, hi: int) -> bool {
    match op {
        Op::Rotate { a, b, angle, flip } => lo <= a < hi && lo <= b < hi,
        Op::Sum { a, b, flip } => lo <= a < hi && lo <= b < hi,
    }
}

proof fn lemma_run_quiet(t: Seq<i32>, ops: Seq<Op>, k: nat, hbd: bool, lo: int, hi: int)
    requires
        quiet(t, lo, hi),
        0 <= lo <= hi <= 32,
        k <= ops.len(),
        forall|i: int| 0 <= i < ops.len() ==> op_in(#[trigger] ops[i], lo, hi),
    ensures
        run(t, ops, k, hbd) == t,
    decreases k,
{
    if k > 0 {
        lemma_run_quiet(t, ops, (k - 1) as nat, hbd, lo, hi);
        let op = ops[k - 1];
        assert(op_in(op, lo, hi));
        assert(rounded14(0, hbd) == 0);
        assert(wrap32(0) == 0);
        match op {
            Op::Rotate { a, b, angle, flip } => {
                assert(t[a] == 0 && t[b] == 0);
                assert(step(t, op, hbd) =~= t);
            },
            Op::Sum { a, b, flip } => {
                assert(t[a] == 0 && t[b] == 0);
                assert(step(t, op, hbd) =~= t);
            },
        }
    }
}

#[verifier::spinoff_prover]
proof fn lemma_upper_ops(n: nat)
    requires
        2 <= n <= 5,
    ensures
        ({
            let hi = pow2(n) as int;
            let lo = hi / 2;
            &&& forall|i: int|
                0 <= i < odd_rotations(n).len() ==> op_in(#[trigger] odd_rotations(n)[i], lo, hi)
            &&& n >= 3 ==> forall|i: int|
                0 <= i < neighbour_sums(n).len() ==> op_in(#[trigger] neighbour_sums(n)[i], lo, hi)
            &&& n == 5 ==> forall|i: int|
                0 <= i < quarter_rotations().len() ==> op_in(
                    #[trigger] quarter_rotations()[i],
                    lo,
                    hi,
                )
            &&& n == 5 ==> forall|i: int|
                0 <= i < quarter_sums().len() ==> op_in(#[trigger] quarter_sums()[i], lo, hi)
            &&& n >= 4 ==> forall|i: int|
                0 <= i < half_rotations(n).len() ==> op_in(#[trigger] half_rotations(n)[i], lo, hi)
            &&& n >= 4 ==> forall|i: int|
                0 <= i < half_sums(n).len() ==> op_in(#[trigger] half_sums(n)[i], lo, hi)
            &&& n >= 3 ==> forall|i: int|
                0 <= i < middle_rotations(n).len() ==> op_in(
                    #[trigger] middle_rotations(n)[i],
                    lo,
                    hi,
                )
        }),
{
    lemma2_to64();
    assert(n == 2 || n == 3 || n == 4 || n == 5);
    let hi = pow2(n) as int;
    let lo = hi / 2;
    if n >= 4 {
        let n2 = hi / 4;
        let m = 2 * n - 6;
        assert forall|i: int| 0 <= i < half_rotations(n).len() implies op_in(
            #[trigger] half_rotations(n)[i],
            lo,
            hi,
        ) by {
            assert(n2 * (i % 2) == 0 || n2 * (i % 2) == n2) by (nonlinear_arith)
                requires
                    i % 2 == 0 || i % 2 == 1,
            ;
        }
        assert forall|i: int| 0 <= i < half_sums(n).len() implies op_in(
            #[trigger] half_sums(n)[i],
            lo,
            hi,
        ) by {
            if n == 4 {
                assert(m == 2);
                assert(0 <= i / m <= 1 && 0 <= i % m < 2);
            } else {
                assert(m == 4);
                assert(0 <= i / m <= 1 && 0 <= i % m < 4);
            }
            assert(n2 * (i / m) == 0 || n2 * (i / m) == n2) by (nonlinear_arith)
                requires
                    i / m == 0 || i / m == 1,
            ;
        }
    }
}

/// Sums with zeros spread the lower half over the upper.
proof fn lemma_spread(t: Seq<i32>, n: nat, k: nat, a: i32, hbd: bool)
    requires
        2 <= n <= 5,
        t.len() == 32,
        forall|i: int| 0 <= i < pow2(n) as int / 2 ==> #[trigger] t[i] == a,
        quiet(t, pow2(n) as int / 2, pow2(n) as int),
        k <= pow2(n) as int / 2,
    ensures
        ({
            let n0 = pow2(n) as int;
            let r = run(t, final_sums(n), k, hbd);
            &&& r.len() == 32
            &&& forall|i: int| 0 <= i < n0 / 2 ==> #[trigger] r[i] == a
            &&& forall|i: int| n0 / 2 <= i < n0 - k ==> #[trigger] r[i] == 0
            &&& forall|i: int| n0 - k <= i < n0 ==> #[trigger] r[i] == a
            &&& forall|i: int| n0 <= i < 32 ==> #[trigger] r[i] == t[i]
        }),
    decreases k,
{
    lemma2_to64();
    assert(n == 2 || n == 3 || n == 4 || n == 5);
    if k > 0 {
        lemma_spread(t, n, (k - 1) as nat, a, hbd);
        let n0 = pow2(n) as int;
        let r = run(t, final_sums(n), (k - 1) as nat, hbd);
        assert(final_sums(n)[k - 1] == (Op::Sum { a: k - 1, b: n0 - k, flip: false }));
        assert(r[k - 1] == a && r[n0 - k] == 0);
        assert(wrap32(a as int) == a);
    }
}

#[verifier::spinoff_prover]
proof fn lemma_network_mean(t: Seq<i32>, n: nat, hbd: bool)
    requires
        2 <= n <= 5,
        quiet(t, 1, pow2(n) as int),
    ensures
        ({
            let r = dct_network(t, n, hbd);
            &&& r.len() == 32
            &&& forall|i: int|
                0 <= i < pow2(n) ==> #[trigger] r[i] == rounded14(t[0] * 11585, hbd) as i32
            &&& forall|i: int| pow2(n) <= i < 32 ==> #[trigger] r[i] == t[i]
        }),
    decreases n,
{
    lemma2_to64();
    assert(n == 2 || n == 3 || n == 4 || n == 5);
    lemma_upper_ops(n);
    let hi = pow2(n) as int;
    let lo = hi / 2;
    let a = rounded14(t[0] * 11585, hbd) as i32;
    let s0 = if n <= 2 {
        step(t, (Op::Rotate { a: 0, b: 1, angle: 16, flip: true }), hbd)
    } else {
        dct_network(t, (n - 1) as nat, hbd)
    };
    if n <= 2 {
        assert(cos64(16) == 11585 && sin64(16) == 11585);
        assert(t[1] == 0);
        assert(0 * cos64(16) == 0 && 0 * sin64(16) == 0);
        assert(s0[0] == a && s0[1] == a);
    } else {
        assert(pow2((n - 1) as nat) == lo);
        lemma_network_mean(t, (n - 1) as nat, hbd);
    }
    assert(quiet(s0, lo, hi));
    let s1 = run_all(s0, odd_rotations(n), hbd);
    lemma_run_quiet(s0, odd_rotations(n), odd_rotations(n).len(), hbd, lo, hi);
    if n >= 3 {
        lemma_run_quiet(s0, neighbour_sums(n), neighbour_sums(n).len(), hbd, lo, hi);
        lemma_run_quiet(s0, middle_rotations(n), middle_rotations(n).len(), hbd, lo, hi);
    }
    if n == 5 {
        lemma_run_quiet(s0, quarter_rotations(), quarter_rotations().len(), hbd, lo, hi);
        lemma_run_quiet(s0, quarter_sums(), quarter_sums().len(), hbd, lo, hi);
    }
    if n >= 4 {
        lemma_run_quiet(s0, half_rotations(n), half_rotations(n).len(), hbd, lo, hi);
        lemma_run_quiet(s0, half_sums(n), half_sums(n).len(), hbd, lo, hi);
    }
    lemma_spread(s0, n, lo as nat, a, hbd);
}

proof fn lemma_dct_mean(t: Seq<i32>, n: nat, hbd: bool)
    requires
        2 <= n <= 5,
        quiet(t, 1, 32),
    ensures
        forall|i: int|
            0 <= i < pow2(n) ==> #[trigger] inverse_dct(t, n, hbd)[i] == rounded14(
                t[0] * 11585,
                hbd,
            ) as i32,
{
    lemma2_to64();
    assert(n == 2 || n == 3 || n == 4 || n == 5);
    let p = dct_permuted(t, n);
    assert forall|i: int| 1 <= i < pow2(n) implies #[trigger] p[i] == 0 by {
        lemma_brev_nonzero(n, i);
    }
    assert(brev(n, 0) == 0) by {
        reveal_with_fuel(brev, 6);
        assert(0int % 2 == 0 && 0int / 2 == 0);
    }
    assert(p[0] == t[0]);
    lemma_network_mean(p, n, hbd);
}

proof fn lemma_brev_nonzero(n: nat, x: int)
    requires
        1 <= x < pow2(n),
    ensures
        1 <= brev(n, x) < pow2(n),
    decreases n,
{
    lemma2_to64();
    assert(n > 0);
    vstd::arithmetic::power2::lemma_pow2_unfold(n);
    let p = pow2((n - 1) as nat) as int;
    vstd::arithmetic::power2::lemma_pow2_pos((n - 1) as nat);
    if x / 2 >= 1 {
        lemma_brev_nonzero((n - 1) as nat, x / 2);
    } else {
        lemma_brev_zero((n - 1) as nat);
    }
    assert((x % 2) * p == 0 || (x % 2) * p == p) by (nonlinear_arith)
        requires
            x % 2 == 0 || x % 2 == 1,
    ;
    if x / 2 == 0 {
        assert(x % 2 == 1);
        assert(1 * p == p);
    }
}

proof fn lemma_brev_zero(n: nat)
    ensures
        brev(n, 0) == 0,
    decreases n,
{
    if n > 0 {
        lemma_brev_zero((n - 1) as nat);
        assert(0int % 2 == 0 && 0int / 2 == 0);
        assert(0 * pow2((n - 1) as nat) == 0);
    }
}

/// The nearest whole number to `v * 11585 / 16384`, halves up.
pub open spec fn times_root_half(v: int) -> int {
    (v * 11585 + 8192) / 16384
}

/// A block with the mean coefficient alone has the same residual everywhere: the
/// coefficient times the root of one half, rounded, twice, and then divided by 16, 32,
/// 64 and 64 for blocks of side 4, 8, 16 and 32, and rounded.
#[verifier::spinoff_prover]
pub proof fn lemma_mean_coefficient(dequant: Seq<i64>, n: nat, hbd: bool, i: int)
    requires
        2 <= n <= 5,
        dequant.len() == pow2(n) * pow2(n),
        -60000 <= dequant[0] <= 60000,
        forall|k: int| 1 <= k < dequant.len() ==> #[trigger] dequant[k] == 0,
        0 <= i < pow2(n) * pow2(n),
    ensures
        ({
            let b = times_root_half(times_root_half(dequant[0] as int));
            residual_block(dequant, n, false, false, hbd)[i] == if n == 2 {
                (b + 8) / 16
            } else if n == 3 {
                (b + 16) / 32
            } else {
                (b + 32) / 64
            }
        }),
{
    lemma2_to64();
    assert(n == 2 || n == 3 || n == 4 || n == 5);
    let n0 = pow2(n) as int;
    let s = narrowed(dequant);
    let a = times_root_half(dequant[0] as int);
    let b = times_root_half(a);
    assert(-0x1_0000 <= a <= 0x1_0000 && -0x1_0000 <= b <= 0x1_0000);
    assert(rounded14(dequant[0] * 11585, hbd) == a);
    assert(rounded14(a * 11585, hbd) == b);
    assert(n0 * n0 >= 1) by (nonlinear_arith)
        requires
            n0 >= 4,
    ;
    assert forall|k: int| 1 <= k < s.len() implies #[trigger] s[k] == 0 by {
        assert(dequant[k] == 0);
    }
    assert(s[0] == dequant[0]);
    let mid = transformed_pass(s, n, false, hbd, 0);
    assert forall|k: int| 0 <= k < n0 * n0 implies #[trigger] mid[k] == if k % n0 == 0 {
        a
    } else {
        0
    } by {
        lemma_first_pass(s, n, hbd, k, a);
    }
    lemma_second_pass(mid, n, hbd, i, a, b);
}

proof fn lemma_places(n0: int, k: int)
    requires
        n0 >= 1,
        0 <= k < n0 * n0,
    ensures
        0 <= k % n0 < n0,
        0 <= k / n0 < n0,
        k == (k / n0) * n0 + k % n0,
{
    vstd::arithmetic::div_mod::lemma_fundamental_div_mod(k, n0);
    assert(n0 * (k / n0) == (k / n0) * n0) by (nonlinear_arith);
    assert(0 <= k / n0 < n0) by (nonlinear_arith)
        requires
            0 <= k < n0 * n0,
            n0 >= 1,
    ;
}

proof fn lemma_first_pass(s: Seq<i32>, n: nat, hbd: bool, k: int, a: int)
    requires
        2 <= n <= 5,
        s.len() == pow2(n) * pow2(n),
        forall|j: int| 1 <= j < s.len() ==> #[trigger] s[j] == 0,
        0 <= k < pow2(n) * pow2(n),
        rounded14(s[0] * 11585, hbd) == a,
        -0x1_0000 <= a <= 0x1_0000,
    ensures
        transformed_pass(s, n, false, hbd, 0)[k] == if k % (pow2(n) as int) == 0 {
            a
        } else {
            0
        },
{
    lemma2_to64();
    assert(n == 2 || n == 3 || n == 4 || n == 5);
    let n0 = pow2(n) as int;
    lemma_places(n0, k);
    let r = k % n0;
    let row = block_row(s, n0, r);
    assert forall|j: int| 0 <= j < 32 && (j > 0 || r > 0) implies #[trigger] row[j] == 0 by {
        if j < n0 {
            lemma_row_major(n0, n0, j, r);
            assert(row_major(n0, j, r) >= 1) by {
                if r > 0 {
                    assert(r * n0 >= n0) by (nonlinear_arith)
                        requires
                            r >= 1,
                            n0 >= 1,
                    ;
                }
            }
            assert(s[row_major(n0, j, r)] == 0);
        }
    }
    if r == 0 {
        assert(row[0] == s[0]) by {
            assert(row_major(n0, 0, 0) == 0) by {
                assert(0 * n0 == 0);
            }
        }
        lemma_dct_mean(row, n, hbd);
    } else {
        assert(row[0] == 0);
        lemma_dct_zero(row, n, hbd);
    }
    assert(transformed_row(row, n, false, hbd)[k / n0] == if r == 0 {
        a
    } else {
        0
    });
}

proof fn lemma_second_pass(mid: Seq<i32>, n: nat, hbd: bool, i: int, a: int, b: int)
    requires
        2 <= n <= 5,
        mid.len() == pow2(n) * pow2(n),
        forall|k: int|
            0 <= k < mid.len() ==> #[trigger] mid[k] == if k % (pow2(n) as int) == 0 {
                a
            } else {
                0
            },
        0 <= i < pow2(n) * pow2(n),
        rounded14(a * 11585, hbd) == b,
        -0x1_0000 <= b <= 0x1_0000,
        -0x1_0000 <= a <= 0x1_0000,
    ensures
        transformed_pass(mid, n, false, hbd, final_shift(n))[i] == if n == 2 {
            (b + 8) / 16
        } else if n == 3 {
            (b + 16) / 32
        } else {
            (b + 32) / 64
        },
{
    let n0 = pow2(n) as int;
    assert(n0 >= 1) by {
        lemma2_to64();
        assert(n == 2 || n == 3 || n == 4 || n == 5);
    }
    lemma_places(n0, i);
    let row = block_row(mid, n0, i % n0);
    lemma_mean_row(mid, n, i % n0, a);
    lemma_dct_mean(row, n, hbd);
    assert(transformed_row(row, n, false, hbd)[i / n0] == b);
    lemma_small_shift(b, n);
}

proof fn lemma_small_shift(b: int, n: nat)
    requires
        2 <= n <= 5,
        -0x1_0000 <= b <= 0x1_0000,
    ensures
        shifted(b, final_shift(n)) as i32 == if n == 2 {
            (b + 8) / 16
        } else if n == 3 {
            (b + 16) / 32
        } else {
            (b + 32) / 64
        },
{
    lemma2_to64();
    assert(
        final_shift(2) == 4 && final_shift(3) == 5 && final_shift(4) == 6 && final_shift(5) == 6
    );
    assert(n == 2 || n == 3 || n == 4 || n == 5);
}

proof fn lemma_mean_row(mid: Seq<i32>, n: nat, r: int, a: int)
    requires
        2 <= n <= 5,
        mid.len() == pow2(n) * pow2(n),
        forall|k: int|
            0 <= k < mid.len() ==> #[trigger] mid[k] == if k % (pow2(n) as int) == 0 {
                a
            } else {
                0
            },
        0 <= r < pow2(n),
    ensures
        quiet(block_row(mid, pow2(n) as int, r), 1, 32),
        block_row(mid, pow2(n) as int, r)[0] == a,
{
    lemma2_to64();
    assert(n == 2 || n == 3 || n == 4 || n == 5);
    let n0 = pow2(n) as int;
    let row = block_row(mid, n0, r);
    assert forall|j: int| 0 <= j < 32 implies #[trigger] row[j] == if j == 0 {
        a
    } else {
        0
    } by {
        if j < n0 {
            lemma_row_major(n0, n0, j, r);
            assert(mid[row_major(n0, j, r)] == if j == 0 {
                a
            } else {
                0
            });
        }
    }
}

} // verus!
