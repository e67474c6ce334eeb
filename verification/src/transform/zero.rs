//! Blocks without coefficients: the transforms take zeros to zeros, so
//! reconstruction leaves the prediction as it is.

use vstd::arithmetic::power2::{lemma2_to64, pow2};
use vstd::prelude::*;
use crate::framebuffer::row_major;
use crate::transform::{
    adst16_ops, adst16_source, adst8_ops, adst8_source, adst_input, adst_run, block_row, brev,
    dct_network, dct_permuted, final_shift, final_sums, half_rotations, half_sums, inverse_adst,
    inverse_adst16, inverse_adst8, inverse_dct, middle_rotations, narrowed, neighbour_sums,
    odd_rotations, quarter_rotations, quarter_sums, reconstructed, residual_block, rounded14, run,
    run_all, shifted, step, transformed_pass, transformed_row, wrap32, AdstOp, AdstValues, Op,
};

verus! {

/// `len` zeros.
pub open spec fn zeros(t: Seq<i32>, len: int) -> bool {
    t.len() == len && forall|i: int| 0 <= i < len ==> #[trigger] t[i] == 0
}

/// The operation works on two of the first `len` values.
spec fn op_within(op: Op, len: int) -> bool {
    match op {
        Op::Rotate { a, b, angle, flip } => 0 <= a < len && 0 <= b < len,
        Op::Sum { a, b, flip } => 0 <= a < len && 0 <= b < len,
    }
}

proof fn lemma_step_zero(t: Seq<i32>, op: Op, hbd: bool)
    requires
        zeros(t, 32),
        op_within(op, 32),
    ensures
        zeros(step(t, op, hbd), 32),
{
    assert(rounded14(0, hbd) == 0);
    assert(wrap32(0) == 0);
    match op {
        Op::Rotate { a, b, angle, flip } => {
            assert(t[a] == 0 && t[b] == 0);
        },
        Op::Sum { a, b, flip } => {
            assert(t[a] == 0 && t[b] == 0);
        },
    }
}

proof fn lemma_run_zero(t: Seq<i32>, ops: Seq<Op>, k: nat, hbd: bool)
    requires
        zeros(t, 32),
        k <= ops.len(),
        forall|i: int| 0 <= i < ops.len() ==> op_within(#[trigger] ops[i], 32),
    ensures
        zeros(run(t, ops, k, hbd), 32),
    decreases k,
{
    if k > 0 {
        lemma_run_zero(t, ops, (k - 1) as nat, hbd);
        assert(op_within(ops[k - 1], 32));
        lemma_step_zero(run(t, ops, (k - 1) as nat, hbd), ops[k - 1], hbd);
    }
}

proof fn lemma_ops_within(n: nat)
    requires
        2 <= n <= 5,
    ensures
        forall|i: int|
            0 <= i < odd_rotations(n).len() ==> op_within(#[trigger] odd_rotations(n)[i], 32),
        n >= 3 ==> forall|i: int|
            0 <= i < neighbour_sums(n).len() ==> op_within(#[trigger] neighbour_sums(n)[i], 32),
        forall|i: int|
            0 <= i < quarter_rotations().len() ==> op_within(#[trigger] quarter_rotations()[i], 32),
        forall|i: int| 0 <= i < quarter_sums().len() ==> op_within(#[trigger] quarter_sums()[i], 32),
        n >= 4 ==> forall|i: int|
            0 <= i < half_rotations(n).len() ==> op_within(#[trigger] half_rotations(n)[i], 32),
        n >= 4 ==> forall|i: int|
            0 <= i < half_sums(n).len() ==> op_within(#[trigger] half_sums(n)[i], 32),
        n >= 3 ==> forall|i: int|
            0 <= i < middle_rotations(n).len() ==> op_within(#[trigger] middle_rotations(n)[i], 32),
        forall|i: int| 0 <= i < final_sums(n).len() ==> op_within(#[trigger] final_sums(n)[i], 32),
{
    lemma2_to64();
    assert(n == 2 || n == 3 || n == 4 || n == 5);
    if n >= 4 {
        let n2 = pow2(n) as int / 4;
        let m = 2 * n - 6;
        assert forall|i: int| 0 <= i < half_rotations(n).len() implies op_within(
            #[trigger] half_rotations(n)[i],
            32,
        ) by {
            assert(n2 * (i % 2) == 0 || n2 * (i % 2) == n2) by (nonlinear_arith)
                requires
                    i % 2 == 0 || i % 2 == 1,
            ;
        }
        assert forall|i: int| 0 <= i < half_sums(n).len() implies op_within(
            #[trigger] half_sums(n)[i],
            32,
        ) by {
            if n == 4 {
                assert(m == 2);
                assert(0 <= i / m <= 1 && 0 <= i % m < 2);
            } else {
                assert(m == 4);
                assert(0 <= i / m <= 1 && 0 <= i % m < 4);
            }
            assert(n2 * (i / m) == 0 || n2 * (i / m) == n2) by (nonlinear_arith)
                requires
                    i / m == 0 || i / m == 1,
            ;
        }
    }
}

#[verifier::spinoff_prover]
proof fn lemma_network_zero(t: Seq<i32>, n: nat, hbd: bool)
    requires
        zeros(t, 32),
        2 <= n <= 5,
    ensures
        zeros(dct_network(t, n, hbd), 32),
    decreases n,
{
    lemma_ops_within(n);
    let s0 = if n <= 2 {
        step(t, (Op::Rotate { a: 0, b: 1, angle: 16, flip: true }), hbd)
    } else {
        dct_network(t, (n - 1) as nat, hbd)
    };
    if n <= 2 {
        lemma_step_zero(t, (Op::Rotate { a: 0, b: 1, angle: 16, flip: true }), hbd);
    } else {
        lemma_network_zero(t, (n - 1) as nat, hbd);
    }
    let s1 = run_all(s0, odd_rotations(n), hbd);
    lemma_run_zero(s0, odd_rotations(n), odd_rotations(n).len(), hbd);
    let s2 = if n >= 3 {
        run_all(s1, neighbour_sums(n), hbd)
    } else {
        s1
    };
    if n >= 3 {
        lemma_run_zero(s1, neighbour_sums(n), neighbour_sums(n).len(), hbd);
    }
    let s3 = if n == 5 {
        run_all(run_all(s2, quarter_rotations(), hbd), quarter_sums(), hbd)
    } else {
        s2
    };
    if n == 5 {
        lemma_run_zero(s2, quarter_rotations(), quarter_rotations().len(), hbd);
        lemma_run_zero(
            run_all(s2, quarter_rotations(), hbd),
            quarter_sums(),
            quarter_sums().len(),
            hbd,
        );
    }
    let s4 = if n >= 4 {
        run_all(run_all(s3, half_rotations(n), hbd), half_sums(n), hbd)
    } else {
        s3
    };
    if n >= 4 {
        lemma_run_zero(s3, half_rotations(n), half_rotations(n).len(), hbd);
        lemma_run_zero(
            run_all(s3, half_rotations(n), hbd),
            half_sums(n),
            half_sums(n).len(),
            hbd,
        );
    }
    let s5 = if n >= 3 {
        run_all(s4, middle_rotations(n), hbd)
    } else {
        s4
    };
    if n >= 3 {
        lemma_run_zero(s4, middle_rotations(n), middle_rotations(n).len(), hbd);
    }
    lemma_run_zero(s5, final_sums(n), final_sums(n).len(), hbd);
}

proof fn lemma_brev_range(n: nat, x: int)
    requires
        0 <= x,
    ensures
        0 <= brev(n, x) < pow2(n),
    decreases n,
{
    if n > 0 {
        lemma_brev_range((n - 1) as nat, x / 2);
        vstd::arithmetic::power2::lemma_pow2_unfold(n);
        let p = pow2((n - 1) as nat) as int;
        assert((x % 2) * p == 0 || (x % 2) * p == p) by (nonlinear_arith)
            requires
                x % 2 == 0 || x % 2 == 1,
        ;
    } else {
        lemma2_to64();
    }
}

pub proof fn lemma_dct_zero(t: Seq<i32>, n: nat, hbd: bool)
    requires
        zeros(t, 32),
        2 <= n <= 5,
    ensures
        zeros(inverse_dct(t, n, hbd), 32),
{
    lemma2_to64();
    assert forall|i: int| 0 <= i < 32 implies #[trigger] dct_permuted(t, n)[i] == 0 by {
        lemma_brev_range(n, i);
    }
    lemma_network_zero(dct_permuted(t, n), n, hbd);
}

/// The operation works on two of the first 16 values.
spec fn adst_op_within(op: AdstOp) -> bool {
    match op {
        AdstOp::Wide { a, b, angle, flip } => 0 <= a < 16 && 0 <= b < 16,
        AdstOp::Narrow { a, b } => 0 <= a < 16 && 0 <= b < 16,
        AdstOp::Plain(op) => op_within(op, 16),
    }
}

spec fn adst_zeros(v: AdstValues) -> bool {
    zeros(v.t, 32) && zeros(v.s, 16)
}

proof fn lemma_adst_run_zero(v: AdstValues, ops: Seq<AdstOp>, k: nat)
    requires
        adst_zeros(v),
        k <= ops.len(),
        forall|i: int| 0 <= i < ops.len() ==> adst_op_within(#[trigger] ops[i]),
    ensures
        adst_zeros(adst_run(v, ops, k)),
    decreases k,
{
    if k > 0 {
        lemma_adst_run_zero(v, ops, (k - 1) as nat);
        let w = adst_run(v, ops, (k - 1) as nat);
        assert(adst_op_within(ops[k - 1]));
        assert(rounded14(0, false) == 0);
        assert(wrap32(0) == 0);
        match ops[k - 1] {
            AdstOp::Wide { a, b, angle, flip } => {
                assert(w.t[a] == 0 && w.t[b] == 0);
            },
            AdstOp::Narrow { a, b } => {
                assert(w.s[a] == 0 && w.s[b] == 0);
            },
            AdstOp::Plain(op) => {
                lemma_step_zero(w.t, op, false);
            },
        }
    }
}

#[verifier::spinoff_prover]
proof fn lemma_adst_zero(t: Seq<i32>, n: nat)
    requires
        zeros(t, 32),
        2 <= n <= 4,
    ensures
        zeros(inverse_adst(t, n), 32),
{
    assert(rounded14(0, false) == 0);
    assert(wrap32(0) == 0);
    if n == 2 {
        assert(t[0] == 0 && t[1] == 0 && t[2] == 0 && t[3] == 0);
    } else if n == 3 {
        let v = AdstValues { t: adst_input(t, 8), s: Seq::new(16, |i: int| 0i32) };
        assert forall|i: int| 0 <= i < adst8_ops().len() implies adst_op_within(
            #[trigger] adst8_ops()[i],
        ) by {}
        lemma_adst_run_zero(v, adst8_ops(), 16);
        let r = adst_run(v, adst8_ops(), 16).t;
        assert forall|i: int| 0 <= i < 32 implies #[trigger] inverse_adst8(t)[i] == 0 by {
            if i < 8 {
                assert(0 <= adst8_source(i) < 8);
                assert(r[adst8_source(i)] == 0);
            }
        }
    } else {
        let v = AdstValues { t: adst_input(t, 16), s: Seq::new(16, |i: int| 0i32) };
        assert forall|i: int| 0 <= i < adst16_ops().len() implies adst_op_within(
            #[trigger] adst16_ops()[i],
        ) by {}
        lemma_adst_run_zero(v, adst16_ops(), 44);
        let r = adst_run(v, adst16_ops(), 44).t;
        assert forall|i: int| 0 <= i < 32 implies #[trigger] inverse_adst16(t)[i] == 0 by {
            if i < 16 {
                assert(0 <= adst16_source(i) < 16);
                assert(r[adst16_source(i)] == 0);
            }
        }
    }
}

/// A pass over zeros gives zeros.
#[verifier::spinoff_prover]
proof fn lemma_pass_zero(s: Seq<i32>, n: nat, adst: bool, hbd: bool, shift: nat)
    requires
        2 <= n <= 5,
        adst ==> n <= 4,
        shift <= 6,
        zeros(s, (pow2(n) * pow2(n)) as int),
    ensures
        zeros(transformed_pass(s, n, adst, hbd, shift), (pow2(n) * pow2(n)) as int),
{
    lemma2_to64();
    let n0 = pow2(n) as int;
    let out = transformed_pass(s, n, adst, hbd, shift);
    assert forall|i: int| 0 <= i < n0 * n0 implies #[trigger] out[i] == 0 by {
        let r = i % n0;
        let row = block_row(s, n0, r);
        assert forall|k: int| 0 <= k < 32 implies #[trigger] row[k] == 0 by {
            if k < n0 {
                crate::framebuffer::lemma_row_major(n0, n0, k, r);
                assert(s[row_major(n0, k, r)] == 0);
            }
        }
        if adst {
            lemma_adst_zero(row, n);
        } else {
            lemma_dct_zero(row, n, hbd);
        }
        assert(0 <= i / n0 < n0) by (nonlinear_arith)
            requires
                0 <= i < n0 * n0,
                n0 > 0,
        ;
        assert(transformed_row(row, n, adst, hbd)[i / n0] == 0);
        assert(shifted(0, shift) == 0) by {
            if shift > 0 {
                assert(shift == 1 || shift == 2 || shift == 3 || shift == 4 || shift == 5 || shift
                    == 6);
            }
        }
    }
}

/// A block whose coefficients are all 0 has a residual of zeros.
pub proof fn lemma_no_coefficients(
    dequant: Seq<i64>,
    n: nat,
    adst_rows: bool,
    adst_cols: bool,
    hbd: bool,
)
    requires
        2 <= n <= 5,
        adst_rows || adst_cols ==> n <= 4,
        dequant.len() == pow2(n) * pow2(n),
        forall|i: int| 0 <= i < dequant.len() ==> #[trigger] dequant[i] == 0,
    ensures
        zeros(residual_block(dequant, n, adst_rows, adst_cols, hbd), (pow2(n) * pow2(n)) as int),
{
    let s = narrowed(dequant);
    assert forall|i: int| 0 <= i < s.len() implies #[trigger] s[i] == 0 by {
        assert(dequant[i] == 0);
        assert(wrap32(0) == 0);
    }
    lemma_pass_zero(s, n, adst_rows, hbd, 0);
    lemma_pass_zero(
        transformed_pass(s, n, adst_rows, hbd, 0),
        n,
        adst_cols,
        hbd,
        final_shift(n),
    );
}

/// A residual of zeros leaves a plane as it is.
pub proof fn lemma_zero_residual(
    data: Seq<u16>,
    width: int,
    start_x: int,
    start_y: int,
    residual: Seq<i32>,
    n0: int,
    max: int,
)
    requires
        0 < width,
        0 <= n0,
        zeros(residual, n0 * n0),
        forall|p: int| 0 <= p < data.len() ==> #[trigger] data[p] <= max,
    ensures
        reconstructed(data, width, start_x, start_y, residual, n0, max) == data,
{
    let out = reconstructed(data, width, start_x, start_y, residual, n0, max);
    assert forall|p: int| 0 <= p < data.len() implies out[p] == data[p] by {
        let i = p / width - start_y;
        let j = p % width - start_x;
        if 0 <= i < n0 && 0 <= j < n0 {
            crate::framebuffer::lemma_row_major(n0, n0, j, i);
            assert(residual[row_major(n0, j, i)] == 0);
        }
    }
    assert(out =~= data);
}

} // verus!
