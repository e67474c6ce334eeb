//! The compressed header: the transform mode and the updates of the
//! probability tables, coded with the bool decoder.
//!
//! An update reads a flag and, where it is set, a new value. How many bools it
//! reads does not depend on the probability that it updates. So the state
//! before the `i`-th update of a run is a function of the state before the run
//! and of `i` alone, and the contract of a run says of each entry what its own
//! update makes of it.

use std::sync::Arc;
use vstd::prelude::*;
use crate::bool_coder::{
    after_bool, after_literal, decoded_bool, decoded_literal, lemma_literal_range, loaded_state,
    BoolCoderError, BoolDecoder, BoolState,
};
use crate::header::NewFrameHeader;
use crate::prob_tables::coefficients::used_nonzero;
use crate::prob_tables::{
    CoefProbs, ALTREF_FRAME, COMPOUND_REFERENCE, GOLDEN_FRAME, INV_MAP_TABLE, LAST_FRAME,
    REFERENCE_MODE_SELECT, SINGLE_REFERENCE, SWITCHABLE, TX_MODE_SELECT, TX_MODE_TO_BIGGEST_TX_SIZE,
};

pub mod laws;
pub mod tables;

pub use self::tables::{
    coef_nonzero, default_probs, lemma_default_probs_valid, probs_valid, row_nonzero, rows_nonzero,
    tx_nonzero, CompressedHeaderProbs, FrameContext, FrameContextStore,
};

verus! {

/// Errors that a compressed header can have.
#[derive(Debug, Clone, Copy, PartialEq, Eq, Structural)]
pub enum CompressedHeaderError {
    /// The bool decoder could not be started.
    BoolCoder(BoolCoderError),
}

/// A parsed compressed header.
#[derive(Debug, PartialEq, Eq)]
pub struct CompressedHeader {
    pub tx_mode: u8,
    /// The updated tables.
    pub probs: Arc<CompressedHeaderProbs>,
    pub reference_mode: u8,
    /// The reference that compound prediction always uses; 0 where there is no
    /// compound prediction.
    pub comp_fixed_ref: u8,
    /// The references that it chooses from.
    pub comp_var_ref: [u8; 2],
}

impl Clone for CompressedHeader {
    fn clone(&self) -> (r: Self)
        ensures
            r == *self,
    {
        let probs: Arc<CompressedHeaderProbs> = self.probs.clone();
        CompressedHeader {
            tx_mode: self.tx_mode,
            probs,
            reference_mode: self.reference_mode,
            comp_fixed_ref: self.comp_fixed_ref,
            comp_var_ref: self.comp_var_ref,
        }
    }
}

// ---------------------------------------------------------------------------
// One update.
// ---------------------------------------------------------------------------

/// A value coded in more bits the larger it is, 0 to 254.
pub open spec fn term_subexp(d: Seq<u8>, st: BoolState) -> int {
    let s1 = after_bool(d, st, 128);
    let s2 = after_bool(d, s1, 128);
    let s3 = after_bool(d, s2, 128);
    if !decoded_bool(st, 128) {
        decoded_literal(d, s1, 4)
    } else if !decoded_bool(s1, 128) {
        decoded_literal(d, s2, 4) + 16
    } else if !decoded_bool(s2, 128) {
        decoded_literal(d, s3, 5) + 32
    } else {
        let v = decoded_literal(d, s3, 7);
        if v < 65 {
            v + 64
        } else {
            2 * v - 1 + decoded_literal(d, after_literal(d, s3, 7), 1)
        }
    }
}

/// The state after such a value.
pub open spec fn after_term_subexp(d: Seq<u8>, st: BoolState) -> BoolState {
    let s1 = after_bool(d, st, 128);
    let s2 = after_bool(d, s1, 128);
    let s3 = after_bool(d, s2, 128);
    if !decoded_bool(st, 128) {
        after_literal(d, s1, 4)
    } else if !decoded_bool(s1, 128) {
        after_literal(d, s2, 4)
    } else if !decoded_bool(s2, 128) {
        after_literal(d, s3, 5)
    } else {
        let s4 = after_literal(d, s3, 7);
        if decoded_literal(d, s3, 7) < 65 {
            s4
        } else {
            after_literal(d, s4, 1)
        }
    }
}

/// Undoes the folding of differences round `m`: 0, 1, 2, 3, 4 stand for `m`,
/// `m - 1`, `m + 1`, `m - 2`, `m + 2`, up to twice `m`; larger values stand for
/// themselves.
pub open spec fn recentered(v: int, m: int) -> int {
    if v > 2 * m {
        v
    } else if v % 2 == 1 {
        m - (v + 1) / 2
    } else {
        m + v / 2
    }
}

/// The probability that a coded difference makes of `prob`.
pub open spec fn remapped(delta: int, prob: u8) -> int {
    let v = INV_MAP_TABLE[delta] as int;
    let m = prob - 1;
    if 2 * m <= 255 {
        1 + recentered(v, m)
    } else {
        255 - recentered(v, 254 - m)
    }
}

/// What an update makes of a probability.
pub open spec fn updated_prob(d: Seq<u8>, st: BoolState, prob: u8) -> u8 {
    if decoded_bool(st, 252) {
        remapped(term_subexp(d, after_bool(d, st, 252)), prob) as u8
    } else {
        prob
    }
}

/// The state after an update.
pub open spec fn after_update(d: Seq<u8>, st: BoolState) -> BoolState {
    let s1 = after_bool(d, st, 252);
    if decoded_bool(st, 252) {
        after_term_subexp(d, s1)
    } else {
        s1
    }
}

/// The state after `n` updates.
pub open spec fn after_updates(d: Seq<u8>, st: BoolState, n: nat) -> BoolState
    decreases n,
{
    if n == 0 {
        st
    } else {
        after_update(d, after_updates(d, st, (n - 1) as nat))
    }
}

/// Two runs of updates are one run.
pub proof fn lemma_after_updates_concat(d: Seq<u8>, st: BoolState, n: nat, m: nat)
    ensures
        after_updates(d, after_updates(d, st, n), m) == after_updates(d, st, n + m),
    decreases m,
{
    if m > 0 {
        lemma_after_updates_concat(d, st, n, (m - 1) as nat);
        assert((n + m - 1) as nat == n + (m - 1) as nat);
    }
}

fn decode_term_subexp(r: &mut BoolDecoder) -> (v: u32)
    ensures
        v == term_subexp(old(r).bytes(), old(r).state()),
        v <= 254,
        final(r).bytes() == old(r).bytes(),
        final(r).state() == after_term_subexp(old(r).bytes(), old(r).state()),
{
    let ghost d = r.bytes();
    if !r.flag() {
        proof {
            use_type_invariant(&*r);
            lemma_literal_range(d, r.state(), 4);
        }
        return r.read_literal(4);
    }
    if !r.flag() {
        proof {
            use_type_invariant(&*r);
            lemma_literal_range(d, r.state(), 4);
        }
        return r.read_literal(4) + 16;
    }
    if !r.flag() {
        proof {
            use_type_invariant(&*r);
            lemma_literal_range(d, r.state(), 5);
        }
        return r.read_literal(5) + 32;
    }
    proof {
        use_type_invariant(&*r);
        lemma_literal_range(d, r.state(), 7);
    }
    let v: u32 = r.read_literal(7);
    if v < 65 {
        return v + 64;
    }
    proof {
        use_type_invariant(&*r);
        lemma_literal_range(d, r.state(), 1);
    }
    let bit: u32 = r.read_literal(1);
    2 * v - 1 + bit
}

/// The difference of each code is at least 1 and at most 254.
#[verifier::spinoff_prover]
proof fn lemma_inv_map_range(delta: int)
    requires
        0 <= delta < 255,
    ensures
        1 <= INV_MAP_TABLE[delta] <= 254,
{
    let table = INV_MAP_TABLE@;
    assert(forall|k: int| 0 <= k < 255 ==> 1 <= #[trigger] table[k] <= 254);
}

/// An update gives a probability that is not 0.
#[verifier::spinoff_prover]
pub proof fn lemma_remapped_range(delta: int, prob: u8)
    requires
        0 <= delta < 255,
        prob >= 1,
    ensures
        1 <= remapped(delta, prob) <= 255,
{
    lemma_inv_map_range(delta);
}

/// The difference of each code but the last: every thirteenth from 7 on for the
/// first twenty codes, the others in order for the rest.
spec fn coded_difference(code: int) -> int {
    if code < 20 {
        7 + 13 * code
    } else {
        code - 19 + (code - 14) / 12
    }
}

/// The code of a difference.
spec fn code_of(difference: int) -> int {
    if difference % 13 == 7 {
        difference / 13
    } else {
        difference + 19 - (difference + 5) / 13
    }
}

#[verifier::spinoff_prover]
proof fn lemma_coded_difference(code: int)
    requires
        0 <= code < 254,
    ensures
        INV_MAP_TABLE[code] == coded_difference(code),
{
    let table = INV_MAP_TABLE@;
    assert(forall|k: int| 0 <= k < 254 ==> #[trigger] table[k] == coded_difference(k));
}

/// Codes and differences go together one by one.
proof fn lemma_codes(code: int, difference: int)
    requires
        0 <= code < 254,
        1 <= difference <= 254,
    ensures
        1 <= coded_difference(code) <= 254,
        code_of(coded_difference(code)) == code,
        0 <= code_of(difference) < 254,
        coded_difference(code_of(difference)) == difference,
{
}

/// Some code but the last turns `prob` into `q`.
pub open spec fn reached_by_code(prob: u8, q: int) -> bool {
    exists|a: int| 0 <= a < 254 && #[trigger] remapped(a, prob) == q
}

/// The codes but the last reach every other probability exactly once: no code
/// leaves a probability as it is, no two give the same, and every other one is
/// given by one of them.
pub proof fn lemma_remapping_is_one_to_one(prob: u8)
    requires
        prob >= 1,
    ensures
        forall|a: int, b: int|
            0 <= a < b < 254 ==> #[trigger] remapped(a, prob) != #[trigger] remapped(b, prob),
        forall|a: int| 0 <= a < 254 ==> #[trigger] remapped(a, prob) != prob,
        forall|q: int| 1 <= q <= 255 && q != prob ==> #[trigger] reached_by_code(prob, q),
{
    assert forall|a: int| 0 <= a < 254 implies #[trigger] remapped(a, prob) != prob by {
        lemma_coded_difference(a);
        lemma_codes(a, 1);
    }
    assert forall|a: int, b: int| 0 <= a < b < 254 implies #[trigger] remapped(a, prob)
        != #[trigger] remapped(b, prob) by {
        lemma_coded_difference(a);
        lemma_coded_difference(b);
        lemma_codes(a, 1);
        lemma_codes(b, 1);
    }
    assert forall|q: int| 1 <= q <= 255 && q != prob implies #[trigger] reached_by_code(
        prob,
        q,
    ) by {
        let m = prob - 1;
        let low = 2 * m <= 255;
        let c = if low {
            m
        } else {
            254 - m
        };
        let x = if low {
            q - 1
        } else {
            255 - q
        };
        let v = if x > 2 * c {
            x
        } else if x < c {
            2 * (c - x) - 1
        } else {
            2 * (x - c)
        };
        assert(recentered(v, c) == x);
        lemma_codes(0, v);
        let a = code_of(v);
        lemma_coded_difference(a);
        assert(remapped(a, prob) == q);
    }
}

fn inv_recenter_nonneg(v: u32, m: u32) -> (x: u32)
    requires
        v <= 254,
        m <= 254,
    ensures
        x == recentered(v as int, m as int),
{
    if v > 2 * m {
        return v;
    }
    if v % 2 == 1 {
        m - (v + 1) / 2
    } else {
        m + v / 2
    }
}

/// The probability that a code turns `prob` into. No code below 254 leaves it as
/// it is, and no two of them give the same.
#[verifier::spinoff_prover]
pub fn inv_remap_prob(delta_prob: u32, prob: u8) -> (p: u8)
    requires
        delta_prob <= 254,
        prob >= 1,
    ensures
        p == remapped(delta_prob as int, prob),
        p >= 1,
        delta_prob < 254 ==> p != prob,
        forall|d: int|
            0 <= d < 254 && delta_prob < 254 && d != delta_prob ==> p != #[trigger] remapped(d, prob),
{
    proof {
        lemma_remapping_is_one_to_one(prob);
        lemma_inv_map_range(delta_prob as int);
        lemma_remapped_range(delta_prob as int, prob);
    }
    let v: u32 = INV_MAP_TABLE[delta_prob as usize] as u32;
    let m: u32 = prob as u32 - 1;
    if 2 * m <= 255 {
        (1 + inv_recenter_nonneg(v, m)) as u8
    } else {
        (255 - inv_recenter_nonneg(v, 254 - m)) as u8
    }
}

fn diff_update_prob(r: &mut BoolDecoder, prob: u8) -> (p: u8)
    requires
        prob >= 1,
    ensures
        p == updated_prob(old(r).bytes(), old(r).state(), prob),
        p >= 1,
        final(r).bytes() == old(r).bytes(),
        final(r).state() == after_update(old(r).bytes(), old(r).state()),
{
    if r.read_bool(252) {
        let delta_prob: u32 = decode_term_subexp(r);
        inv_remap_prob(delta_prob, prob)
    } else {
        prob
    }
}

// ---------------------------------------------------------------------------
// Runs of updates.
// ---------------------------------------------------------------------------

/// What a run of updates makes of the first `n` entries of a row.
pub open spec fn row_updated<const N: usize>(
    d: Seq<u8>,
    st: BoolState,
    before: [u8; N],
    after: [u8; N],
    n: int,
) -> bool {
    forall|i: int|
        0 <= i < N ==> #[trigger] after[i] == if i < n {
            updated_prob(d, after_updates(d, st, i as nat), before[i])
        } else {
            before[i]
        }
}

/// What a run of updates makes of a table, row by row.
pub open spec fn rows_updated<const N: usize, const M: usize>(
    d: Seq<u8>,
    st: BoolState,
    before: [[u8; N]; M],
    after: [[u8; N]; M],
) -> bool {
    forall|j: int, i: int|
        0 <= j < M && 0 <= i < N ==> #[trigger] after[j][i] == updated_prob(
            d,
            after_updates(d, st, (j * N + i) as nat),
            before[j][i],
        )
}

/// Updates the first `n` entries of a row.
fn update_row<const N: usize>(r: &mut BoolDecoder, row: [u8; N], n: usize) -> (out: [u8; N])
    requires
        n <= N,
        forall|i: int| 0 <= i < n ==> #[trigger] row[i] >= 1,
    ensures
        row_updated(old(r).bytes(), old(r).state(), row, out, n as int),
        forall|i: int| 0 <= i < n ==> #[trigger] out[i] >= 1,
        final(r).bytes() == old(r).bytes(),
        final(r).state() == after_updates(old(r).bytes(), old(r).state(), n as nat),
{
    let ghost d = r.bytes();
    let ghost st = r.state();
    let mut out: [u8; N] = row;
    for i in 0..n
        invariant
            n <= N,
            r.bytes() == d,
            r.state() == after_updates(d, st, i as nat),
            row_updated(d, st, row, out, i as int),
            forall|k: int| 0 <= k < n ==> #[trigger] out[k] >= 1,
    {
        let old_prob: u8 = out[i];
        out[i] = diff_update_prob(r, old_prob);
    }
    out
}

/// Updates the first `n` entries of a row, as part of a longer run: `start` is
/// the state before the run, and `base` updates of it have been made.
fn update_row_in_run<const N: usize>(
    r: &mut BoolDecoder,
    row: [u8; N],
    n: usize,
    Ghost(start): Ghost<BoolState>,
    Ghost(base): Ghost<nat>,
) -> (out: [u8; N])
    requires
        n <= N,
        forall|i: int| 0 <= i < n ==> #[trigger] row[i] >= 1,
        old(r).state() == after_updates(old(r).bytes(), start, base),
    ensures
        forall|i: int|
            0 <= i < N ==> #[trigger] out[i] == if i < n {
                updated_prob(
                    old(r).bytes(),
                    after_updates(old(r).bytes(), start, (base + i) as nat),
                    row[i],
                )
            } else {
                row[i]
            },
        forall|i: int| 0 <= i < n ==> #[trigger] out[i] >= 1,
        final(r).bytes() == old(r).bytes(),
        final(r).state() == after_updates(old(r).bytes(), start, base + n as nat),
{
    let ghost d = r.bytes();
    let out: [u8; N] = update_row(r, row, n);
    proof {
        lemma_after_updates_concat(d, start, base, n as nat);
        assert forall|i: int| 0 <= i < n implies #[trigger] out[i] == updated_prob(
            d,
            after_updates(d, start, (base + i) as nat),
            row[i],
        ) by {
            lemma_after_updates_concat(d, start, base, i as nat);
        }
    }
    out
}

/// Updates a whole table.
fn update_rows<const N: usize, const M: usize>(
    r: &mut BoolDecoder,
    rows: [[u8; N]; M],
) -> (out: [[u8;
    N]; M])
    requires
        rows_nonzero(rows),
    ensures
        rows_updated(old(r).bytes(), old(r).state(), rows, out),
        rows_nonzero(out),
        final(r).bytes() == old(r).bytes(),
        final(r).state() == after_updates(old(r).bytes(), old(r).state(), (M * N) as nat),
{
    let ghost d = r.bytes();
    let ghost st = r.state();
    let mut out: [[u8; N]; M] = rows;
    assert(0 * N == 0);
    for j in 0..M
        invariant
            r.bytes() == d,
            r.state() == after_updates(d, st, (j * N) as nat),
            rows_nonzero(out),
            forall|k: int| j <= k < M ==> #[trigger] out[k] == rows[k],
            forall|k: int, i: int|
                0 <= k < j && 0 <= i < N ==> #[trigger] out[k][i] == updated_prob(
                    d,
                    after_updates(d, st, (k * N + i) as nat),
                    rows[k][i],
                ),
    {
        let row: [u8; N] = out[j];
        assert(row_nonzero(out[j as int]));
        assert(0 <= j * N) by (nonlinear_arith)
            requires
                0 <= j,
                0 <= N,
        ;
        assert((j + 1) * N == j * N + N) by (nonlinear_arith);
        let new_row: [u8; N] = update_row_in_run(r, row, N, Ghost(st), Ghost((j * N) as nat));
        proof {
            assert(row_nonzero(new_row));
        }
        out[j] = new_row;
    }
    out
}

// ---------------------------------------------------------------------------
// Transform mode and transform sizes.
// ---------------------------------------------------------------------------

/// The transform mode: two bits, and a third where they are both set; only 4x4
/// transforms in a lossless frame.
pub open spec fn tx_mode_at(d: Seq<u8>, st: BoolState, lossless: bool) -> int {
    if lossless {
        0
    } else if decoded_literal(d, st, 2) == 3 {
        3 + decoded_literal(d, after_literal(d, st, 2), 1)
    } else {
        decoded_literal(d, st, 2)
    }
}

/// The state after the transform mode.
pub open spec fn after_tx_mode(d: Seq<u8>, st: BoolState, lossless: bool) -> BoolState {
    if lossless {
        st
    } else if decoded_literal(d, st, 2) == 3 {
        after_literal(d, after_literal(d, st, 2), 1)
    } else {
        after_literal(d, st, 2)
    }
}

fn read_tx_mode(r: &mut BoolDecoder, lossless: bool) -> (m: u8)
    ensures
        m == tx_mode_at(old(r).bytes(), old(r).state(), lossless),
        m <= TX_MODE_SELECT,
        final(r).bytes() == old(r).bytes(),
        final(r).state() == after_tx_mode(old(r).bytes(), old(r).state(), lossless),
{
    if lossless {
        return 0;
    }
    proof {
        use_type_invariant(&*r);
        lemma_literal_range(r.bytes(), r.state(), 2);
    }
    let mut tx_mode: u8 = r.read_literal(2) as u8;
    if tx_mode == 3 {
        proof {
            use_type_invariant(&*r);
            lemma_literal_range(r.bytes(), r.state(), 1);
        }
        tx_mode += r.read_literal(1) as u8;
    }
    tx_mode
}

/// Which update of the run belongs to node `n` of context `c` of transform size
/// `s`: the sizes from 8x8 to 32x32 have one, two and three nodes in each of
/// the two contexts.
pub open spec fn tx_update_index(s: int, c: int, n: int) -> int {
    s * (s - 1) + c * s + n
}

/// What the run of updates makes of the transform size probabilities.
pub open spec fn tx_updated(
    d: Seq<u8>,
    st: BoolState,
    before: [[[u8; 3]; 2]; 4],
    after: [[[u8; 3]; 2]; 4],
) -> bool {
    forall|s: int, c: int, n: int|
        0 <= s < 4 && 0 <= c < 2 && 0 <= n < 3 ==> #[trigger] after[s][c][n] == if n < s {
            updated_prob(
                d,
                after_updates(d, st, tx_update_index(s, c, n) as nat),
                before[s][c][n],
            )
        } else {
            before[s][c][n]
        }
}

#[verifier::spinoff_prover]
#[verifier::rlimit(40)]
fn read_tx_mode_probs(r: &mut BoolDecoder, tx_probs: [[[u8; 3]; 2]; 4]) -> (out: [[[u8; 3]; 2]; 4])
    requires
        tx_nonzero(tx_probs),
    ensures
        tx_updated(old(r).bytes(), old(r).state(), tx_probs, out),
        tx_nonzero(out),
        final(r).bytes() == old(r).bytes(),
        final(r).state() == after_updates(old(r).bytes(), old(r).state(), 12),
{
    let ghost d = r.bytes();
    let ghost st = r.state();
    let row8_0: [u8; 3] = update_row_in_run(r, tx_probs[1][0], 1, Ghost(st), Ghost(0));
    let row8_1: [u8; 3] = update_row_in_run(r, tx_probs[1][1], 1, Ghost(st), Ghost(1));
    let row16_0: [u8; 3] = update_row_in_run(r, tx_probs[2][0], 2, Ghost(st), Ghost(2));
    let row16_1: [u8; 3] = update_row_in_run(r, tx_probs[2][1], 2, Ghost(st), Ghost(4));
    let row32_0: [u8; 3] = update_row_in_run(r, tx_probs[3][0], 3, Ghost(st), Ghost(6));
    let row32_1: [u8; 3] = update_row_in_run(r, tx_probs[3][1], 3, Ghost(st), Ghost(9));
    let out: [[[u8; 3]; 2]; 4] = [
        tx_probs[0],
        [row8_0, row8_1],
        [row16_0, row16_1],
        [row32_0, row32_1],
    ];
    proof {
        assert(tx_update_index(1, 0, 0) == 0 && tx_update_index(1, 1, 0) == 1);
        assert(forall|n: int| tx_update_index(2, 0, n) == 2 + n);
        assert(forall|n: int| tx_update_index(2, 1, n) == 4 + n);
        assert(forall|n: int| tx_update_index(3, 0, n) == 6 + n);
        assert(forall|n: int| tx_update_index(3, 1, n) == 9 + n);
        assert(out[1][0] == row8_0 && out[1][1] == row8_1);
        assert(out[2][0] == row16_0 && out[2][1] == row16_1);
        assert(out[3][0] == row32_0 && out[3][1] == row32_1);
    }
    out
}

// ---------------------------------------------------------------------------
// Coefficient probabilities.
// ---------------------------------------------------------------------------

/// Number of contexts of a band.
pub open spec fn band_contexts(k: int) -> int {
    if k == 0 {
        3
    } else {
        6
    }
}

/// Number of contexts of the bands before `k`.
pub open spec fn contexts_before(k: int) -> int {
    if k == 0 {
        0
    } else {
        6 * k - 3
    }
}

/// What the updates of one plane type and reference type make of its table.
pub open spec fn bands_updated(
    d: Seq<u8>,
    st: BoolState,
    before: [[[u8; 3]; 6]; 6],
    after: [[[u8; 3]; 6]; 6],
) -> bool {
    forall|k: int, l: int, m: int|
        0 <= k < 6 && 0 <= l < 6 && 0 <= m < 3 ==> #[trigger] after[k][l][m] == if l < band_contexts(
            k,
        ) {
            updated_prob(
                d,
                after_updates(d, st, (3 * (contexts_before(k) + l) + m) as nat),
                before[k][l][m],
            )
        } else {
            before[k][l][m]
        }
}

/// What the updates of one transform size make of its tables.
pub open spec fn size_updated(
    d: Seq<u8>,
    st: BoolState,
    before: [[[[[u8; 3]; 6]; 6]; 2]; 2],
    after: [[[[[u8; 3]; 6]; 6]; 2]; 2],
) -> bool {
    forall|i: int, j: int|
        0 <= i < 2 && 0 <= j < 2 ==> bands_updated(
            d,
            after_updates(d, st, (99 * (2 * i + j)) as nat),
            before[i][j],
            #[trigger] after[i][j],
        )
}

/// The state before the flag of transform size `t`: each size has a flag and,
/// where it is set, a run of updates.
pub open spec fn coef_state(d: Seq<u8>, st: BoolState, t: nat) -> BoolState
    decreases t,
{
    if t == 0 {
        st
    } else {
        let s = coef_state(d, st, (t - 1) as nat);
        let s1 = after_bool(d, s, 128);
        if decoded_bool(s, 128) {
            after_updates(d, s1, 396)
        } else {
            s1
        }
    }
}

/// What the updates make of the coefficient probabilities, for transform sizes
/// up to `max`.
pub open spec fn coef_updated(
    d: Seq<u8>,
    st: BoolState,
    max: int,
    before: CoefProbs,
    after: CoefProbs,
) -> bool {
    forall|t: int|
        #![trigger after[t]]
        0 <= t < 4 ==> {
            let s = coef_state(d, st, t as nat);
            if t <= max && decoded_bool(s, 128) {
                size_updated(d, after_bool(d, s, 128), before[t], after[t])
            } else {
                after[t] == before[t]
            }
        }
}

/// Updates the bands of one plane type and reference type.
fn update_bands(r: &mut BoolDecoder, bands: [[[u8; 3]; 6]; 6]) -> (out: [[[u8; 3]; 6]; 6])
    requires
        used_nonzero(bands@),
    ensures
        bands_updated(old(r).bytes(), old(r).state(), bands, out),
        used_nonzero(out@),
        final(r).bytes() == old(r).bytes(),
        final(r).state() == after_updates(old(r).bytes(), old(r).state(), 99),
{
    let ghost d = r.bytes();
    let ghost st = r.state();
    let mut out: [[[u8; 3]; 6]; 6] = bands;
    for k in 0..6usize
        invariant
            r.bytes() == d,
            r.state() == after_updates(d, st, (3 * contexts_before(k as int)) as nat),
            used_nonzero(bands@),
            used_nonzero(out@),
            forall|k2: int| k <= k2 < 6 ==> #[trigger] out[k2] == bands[k2],
            forall|k2: int, l: int, m: int|
                0 <= k2 < k && 0 <= l < 6 && 0 <= m < 3 ==> #[trigger] out[k2][l][m] == if l
                    < band_contexts(k2) {
                    updated_prob(
                        d,
                        after_updates(d, st, (3 * (contexts_before(k2) + l) + m) as nat),
                        bands[k2][l][m],
                    )
                } else {
                    bands[k2][l][m]
                },
    {
        let max_l: usize = if k == 0 { 3 } else { 6 };
        let mut band: [[u8; 3]; 6] = out[k];
        for l in 0..max_l
            invariant
                k < 6,
                max_l == band_contexts(k as int),
                r.bytes() == d,
                r.state() == after_updates(d, st, (3 * (contexts_before(k as int) + l)) as nat),
                used_nonzero(bands@),
                forall|l2: int| l <= l2 < 6 ==> #[trigger] band[l2] == bands[k as int][l2],
                forall|l2: int, m: int|
                    0 <= l2 < l && 0 <= m < 3 ==> #[trigger] band[l2][m] == updated_prob(
                        d,
                        after_updates(d, st, (3 * (contexts_before(k as int) + l2) + m) as nat),
                        bands[k as int][l2][m],
                    ) && band[l2][m] >= 1,
        {
            let row: [u8; 3] = band[l];
            assert forall|i: int| 0 <= i < 3 implies (#[trigger] row[i]) >= 1 by {
                assert(bands@[k as int][l as int][i] >= 1);
            }
            let new_row: [u8; 3] = update_row_in_run(
                r,
                row,
                3,
                Ghost(st),
                Ghost((3 * (contexts_before(k as int) + l)) as nat),
            );
            band[l] = new_row;
        }
        assert(contexts_before(k + 1) == contexts_before(k as int) + band_contexts(k as int));
        out[k] = band;
    }
    out
}

/// Updates the tables of one transform size.
fn update_size(
    r: &mut BoolDecoder,
    tables: [[[[[u8; 3]; 6]; 6]; 2]; 2],
) -> (out: [[[[[u8; 3]; 6]; 6];
    2]; 2])
    requires
        forall|i: int, j: int| 0 <= i < 2 && 0 <= j < 2 ==> used_nonzero(#[trigger] tables[i][j]@),
    ensures
        size_updated(old(r).bytes(), old(r).state(), tables, out),
        forall|i: int, j: int| 0 <= i < 2 && 0 <= j < 2 ==> used_nonzero(#[trigger] out[i][j]@),
        final(r).bytes() == old(r).bytes(),
        final(r).state() == after_updates(old(r).bytes(), old(r).state(), 396),
{
    let ghost d = r.bytes();
    let ghost st = r.state();
    proof {
        lemma_after_updates_concat(d, st, 99, 99);
        lemma_after_updates_concat(d, st, 198, 99);
        lemma_after_updates_concat(d, st, 297, 99);
    }
    let t00: [[[u8; 3]; 6]; 6] = update_bands(r, tables[0][0]);
    let t01: [[[u8; 3]; 6]; 6] = update_bands(r, tables[0][1]);
    let t10: [[[u8; 3]; 6]; 6] = update_bands(r, tables[1][0]);
    let t11: [[[u8; 3]; 6]; 6] = update_bands(r, tables[1][1]);
    [[t00, t01], [t10, t11]]
}

fn read_coef_probs(r: &mut BoolDecoder, tx_mode: u8, coef_probs: CoefProbs) -> (out: CoefProbs)
    requires
        tx_mode <= TX_MODE_SELECT,
        coef_nonzero(coef_probs),
    ensures
        coef_updated(
            old(r).bytes(),
            old(r).state(),
            TX_MODE_TO_BIGGEST_TX_SIZE[tx_mode as int] as int,
            coef_probs,
            out,
        ),
        coef_nonzero(out),
        final(r).bytes() == old(r).bytes(),
        final(r).state() == coef_state(
            old(r).bytes(),
            old(r).state(),
            (TX_MODE_TO_BIGGEST_TX_SIZE[tx_mode as int] + 1) as nat,
        ),
{
    let ghost d = r.bytes();
    let ghost st = r.state();
    let max_tx_size: u8 = TX_MODE_TO_BIGGEST_TX_SIZE[tx_mode as usize];
    let mut out: CoefProbs = coef_probs;
    let sizes: usize = max_tx_size as usize + 1;
    for t in 0..sizes
        invariant
            max_tx_size <= 3,
            sizes == max_tx_size + 1,
            r.bytes() == d,
            r.state() == coef_state(d, st, t as nat),
            coef_nonzero(out),
            forall|t2: int| t <= t2 < 4 ==> #[trigger] out[t2] == coef_probs[t2],
            forall|t2: int|
                #![trigger out[t2]]
                0 <= t2 < t ==> {
                    let s = coef_state(d, st, t2 as nat);
                    if decoded_bool(s, 128) {
                        size_updated(d, after_bool(d, s, 128), coef_probs[t2], out[t2])
                    } else {
                        out[t2] == coef_probs[t2]
                    }
                },
    {
        if r.flag() {
            let tables: [[[[[u8; 3]; 6]; 6]; 2]; 2] = out[t];
            assert forall|i: int, j: int| 0 <= i < 2 && 0 <= j < 2 implies used_nonzero(
                #[trigger] tables[i][j]@,
            ) by {
                assert(used_nonzero(out[t as int][i][j]@));
            }
            let new_tables: [[[[[u8; 3]; 6]; 6]; 2]; 2] = update_size(r, tables);
            out[t] = new_tables;
        }
    }
    out
}

// ---------------------------------------------------------------------------
// Reference mode.
// ---------------------------------------------------------------------------

/// Compound prediction needs references with different sign biases.
pub open spec fn compound_allowed(bias: Seq<bool>) -> bool {
    bias[GOLDEN_FRAME as int] != bias[LAST_FRAME as int] || bias[ALTREF_FRAME as int]
        != bias[LAST_FRAME as int]
}

/// The reference mode: none but single where compound prediction is not
/// allowed, else one or two flags.
pub open spec fn reference_mode_at(d: Seq<u8>, st: BoolState, bias: Seq<bool>) -> u8 {
    if !compound_allowed(bias) || !decoded_bool(st, 128) {
        SINGLE_REFERENCE
    } else if !decoded_bool(after_bool(d, st, 128), 128) {
        COMPOUND_REFERENCE
    } else {
        REFERENCE_MODE_SELECT
    }
}

/// The state after the reference mode.
pub open spec fn after_reference_mode(d: Seq<u8>, st: BoolState, bias: Seq<bool>) -> BoolState {
    let s1 = after_bool(d, st, 128);
    if !compound_allowed(bias) {
        st
    } else if !decoded_bool(st, 128) {
        s1
    } else {
        after_bool(d, s1, 128)
    }
}

/// The references of compound prediction: the one whose sign bias differs from
/// the two others is fixed.
pub open spec fn compound_refs(bias: Seq<bool>) -> (u8, Seq<u8>) {
    if bias[LAST_FRAME as int] == bias[GOLDEN_FRAME as int] {
        (ALTREF_FRAME, seq![LAST_FRAME, GOLDEN_FRAME])
    } else if bias[LAST_FRAME as int] == bias[ALTREF_FRAME as int] {
        (GOLDEN_FRAME, seq![LAST_FRAME, ALTREF_FRAME])
    } else {
        (LAST_FRAME, seq![GOLDEN_FRAME, ALTREF_FRAME])
    }
}

fn setup_compound_reference_mode(ref_frame_sign_bias: &[bool; 4]) -> (c: (u8, [u8; 2]))
    ensures
        c.0 == compound_refs(ref_frame_sign_bias@).0,
        c.1@ == compound_refs(ref_frame_sign_bias@).1,
{
    if ref_frame_sign_bias[1] == ref_frame_sign_bias[2] {
        let var_ref: [u8; 2] = [LAST_FRAME, GOLDEN_FRAME];
        assert(var_ref@ =~= seq![LAST_FRAME, GOLDEN_FRAME]);
        (ALTREF_FRAME, var_ref)
    } else if ref_frame_sign_bias[1] == ref_frame_sign_bias[3] {
        let var_ref: [u8; 2] = [LAST_FRAME, ALTREF_FRAME];
        assert(var_ref@ =~= seq![LAST_FRAME, ALTREF_FRAME]);
        (GOLDEN_FRAME, var_ref)
    } else {
        let var_ref: [u8; 2] = [GOLDEN_FRAME, ALTREF_FRAME];
        assert(var_ref@ =~= seq![GOLDEN_FRAME, ALTREF_FRAME]);
        (LAST_FRAME, var_ref)
    }
}

/// The references that a reference mode comes with; none for the single mode.
pub open spec fn mode_refs(mode: u8, bias: Seq<bool>) -> (u8, Seq<u8>) {
    if mode == SINGLE_REFERENCE {
        (0u8, seq![0u8, 0u8])
    } else {
        compound_refs(bias)
    }
}

fn frame_reference_mode(
    r: &mut BoolDecoder,
    ref_frame_sign_bias: &[bool; 4],
) -> (m: (u8, u8, [u8; 2]))
    ensures
        m.0 == reference_mode_at(old(r).bytes(), old(r).state(), ref_frame_sign_bias@),
        m.1 == mode_refs(m.0, ref_frame_sign_bias@).0,
        m.2@ == mode_refs(m.0, ref_frame_sign_bias@).1,
        final(r).bytes() == old(r).bytes(),
        final(r).state() == after_reference_mode(
            old(r).bytes(),
            old(r).state(),
            ref_frame_sign_bias@,
        ),
{
    let allowed: bool = ref_frame_sign_bias[2] != ref_frame_sign_bias[1] || ref_frame_sign_bias[3]
        != ref_frame_sign_bias[1];
    let reference_mode: u8 = if allowed {
        if !r.flag() {
            SINGLE_REFERENCE
        } else if !r.flag() {
            COMPOUND_REFERENCE
        } else {
            REFERENCE_MODE_SELECT
        }
    } else {
        SINGLE_REFERENCE
    };
    if reference_mode != SINGLE_REFERENCE {
        let (fixed_ref, var_ref) = setup_compound_reference_mode(ref_frame_sign_bias);
        (reference_mode, fixed_ref, var_ref)
    } else {
        let var_ref: [u8; 2] = [0, 0];
        assert(var_ref@ =~= seq![0u8, 0u8]);
        (reference_mode, 0, var_ref)
    }
}

// ---------------------------------------------------------------------------
// Motion vector probabilities.
// ---------------------------------------------------------------------------

/// What a motion vector update makes of a probability: an odd value of 7 new
/// bits.
pub open spec fn mv_updated_prob(d: Seq<u8>, st: BoolState, prob: u8) -> u8 {
    if decoded_bool(st, 252) {
        (2 * decoded_literal(d, after_bool(d, st, 252), 7) + 1) as u8
    } else {
        prob
    }
}

/// The state after a motion vector update.
pub open spec fn after_mv_update(d: Seq<u8>, st: BoolState) -> BoolState {
    let s1 = after_bool(d, st, 252);
    if decoded_bool(st, 252) {
        after_literal(d, s1, 7)
    } else {
        s1
    }
}

/// The state after `n` motion vector updates.
pub open spec fn after_mv_updates(d: Seq<u8>, st: BoolState, n: nat) -> BoolState
    decreases n,
{
    if n == 0 {
        st
    } else {
        after_mv_update(d, after_mv_updates(d, st, (n - 1) as nat))
    }
}

/// What update number `n` of a run makes of a probability.
pub open spec fn mv_entry(d: Seq<u8>, st: BoolState, n: int, prob: u8) -> u8 {
    mv_updated_prob(d, after_mv_updates(d, st, n as nat), prob)
}

fn update_mv_prob(r: &mut BoolDecoder, prob: u8) -> (p: u8)
    ensures
        p == mv_updated_prob(old(r).bytes(), old(r).state(), prob),
        final(r).bytes() == old(r).bytes(),
        final(r).state() == after_mv_update(old(r).bytes(), old(r).state()),
{
    if r.read_bool(252) {
        proof {
            use_type_invariant(&*r);
            lemma_literal_range(r.bytes(), r.state(), 7);
        }
        let mv_prob: u8 = r.read_literal(7) as u8;
        2 * mv_prob + 1
    } else {
        prob
    }
}

/// Updates a row as part of a run: `start` is the state before the run, and
/// `base` updates of it have been made.
fn update_mv_row<const N: usize>(
    r: &mut BoolDecoder,
    row: [u8; N],
    Ghost(start): Ghost<BoolState>,
    Ghost(base): Ghost<nat>,
) -> (out: [u8; N])
    requires
        old(r).state() == after_mv_updates(old(r).bytes(), start, base),
    ensures
        forall|i: int|
            0 <= i < N ==> #[trigger] out[i] == mv_entry(old(r).bytes(), start, base + i, row[i]),
        final(r).bytes() == old(r).bytes(),
        final(r).state() == after_mv_updates(old(r).bytes(), start, base + N as nat),
{
    let ghost d = r.bytes();
    let mut out: [u8; N] = row;
    for k in 0..N
        invariant
            r.bytes() == d,
            r.state() == after_mv_updates(d, start, base + k as nat),
            forall|i: int| k <= i < N ==> #[trigger] out[i] == row[i],
            forall|i: int| 0 <= i < k ==> #[trigger] out[i] == mv_entry(d, start, base + i, row[i]),
    {
        let old_prob: u8 = out[k];
        out[k] = update_mv_prob(r, old_prob);
    }
    out
}

/// What the motion vector updates make of the tables. The run starts with the
/// joints; then, for each component, come the sign, the classes, the class 0
/// bit and the bits; then, for each component, the fractions; and last, where
/// it is allowed, for each component the two high-precision bits.
pub open spec fn mv_tables_updated(
    d: Seq<u8>,
    st: BoolState,
    hp: bool,
    b: CompressedHeaderProbs,
    a: CompressedHeaderProbs,
) -> bool {
    &&& forall|i: int|
        0 <= i < 3 ==> #[trigger] a.mv_joint_probs[i] == mv_entry(d, st, i, b.mv_joint_probs[i])
    &&& forall|c: int|
        0 <= c < 2 ==> #[trigger] a.mv_sign_prob[c] == mv_entry(
            d,
            st,
            3 + 22 * c,
            b.mv_sign_prob[c],
        )
    &&& forall|c: int, j: int|
        0 <= c < 2 && 0 <= j < 10 ==> #[trigger] a.mv_class_probs[c][j] == mv_entry(
            d,
            st,
            4 + 22 * c + j,
            b.mv_class_probs[c][j],
        )
    &&& forall|c: int|
        0 <= c < 2 ==> #[trigger] a.mv_class0_bit_prob[c] == mv_entry(
            d,
            st,
            14 + 22 * c,
            b.mv_class0_bit_prob[c],
        )
    &&& forall|c: int, j: int|
        0 <= c < 2 && 0 <= j < 10 ==> #[trigger] a.mv_bits_prob[c][j] == mv_entry(
            d,
            st,
            15 + 22 * c + j,
            b.mv_bits_prob[c][j],
        )
    &&& forall|c: int, j: int, k: int|
        0 <= c < 2 && 0 <= j < 2 && 0 <= k < 3 ==> #[trigger] a.mv_class0_fr_probs[c][j][k]
            == mv_entry(d, st, 47 + 9 * c + 3 * j + k, b.mv_class0_fr_probs[c][j][k])
    &&& forall|c: int, k: int|
        0 <= c < 2 && 0 <= k < 3 ==> #[trigger] a.mv_fr_probs[c][k] == mv_entry(
            d,
            st,
            53 + 9 * c + k,
            b.mv_fr_probs[c][k],
        )
    &&& forall|c: int|
        0 <= c < 2 ==> #[trigger] a.mv_class0_hp_prob[c] == if hp {
            mv_entry(d, st, 65 + 2 * c, b.mv_class0_hp_prob[c])
        } else {
            b.mv_class0_hp_prob[c]
        }
    &&& forall|c: int|
        0 <= c < 2 ==> #[trigger] a.mv_hp_prob[c] == if hp {
            mv_entry(d, st, 66 + 2 * c, b.mv_hp_prob[c])
        } else {
            b.mv_hp_prob[c]
        }
}

/// All but the motion vector tables are the same.
pub open spec fn same_but_mv(a: CompressedHeaderProbs, b: CompressedHeaderProbs) -> bool {
    &&& a.uv_mode_probs == b.uv_mode_probs
    &&& a.tx_probs == b.tx_probs
    &&& a.coef_probs == b.coef_probs
    &&& a.skip_prob == b.skip_prob
    &&& a.inter_mode_probs == b.inter_mode_probs
    &&& a.interp_filter_probs == b.interp_filter_probs
    &&& a.is_inter_prob == b.is_inter_prob
    &&& a.comp_mode_prob == b.comp_mode_prob
    &&& a.single_ref_prob == b.single_ref_prob
    &&& a.comp_ref_prob == b.comp_ref_prob
    &&& a.y_mode_probs == b.y_mode_probs
    &&& a.partition_probs == b.partition_probs
}

/// The motion vector tables are the same.
pub open spec fn same_mv(a: CompressedHeaderProbs, b: CompressedHeaderProbs) -> bool {
    &&& a.mv_joint_probs == b.mv_joint_probs
    &&& a.mv_sign_prob == b.mv_sign_prob
    &&& a.mv_class_probs == b.mv_class_probs
    &&& a.mv_class0_bit_prob == b.mv_class0_bit_prob
    &&& a.mv_bits_prob == b.mv_bits_prob
    &&& a.mv_class0_fr_probs == b.mv_class0_fr_probs
    &&& a.mv_fr_probs == b.mv_fr_probs
    &&& a.mv_class0_hp_prob == b.mv_class0_hp_prob
    &&& a.mv_hp_prob == b.mv_hp_prob
}

/// Updates the motion vector tables.
#[verifier::spinoff_prover]
#[verifier::rlimit(60)]
fn mv_probs(r: &mut BoolDecoder, allow_high_precision_mv: bool, probs: &mut CompressedHeaderProbs)
    ensures
        mv_tables_updated(
            old(r).bytes(),
            old(r).state(),
            allow_high_precision_mv,
            *old(probs),
            *final(probs),
        ),
        same_but_mv(*old(probs), *final(probs)),
        final(r).bytes() == old(r).bytes(),
{
    let ghost d = r.bytes();
    let ghost st = r.state();
    let joints: [u8; 3] = update_mv_row(r, probs.mv_joint_probs, Ghost(st), Ghost(0));
    let sign0: [u8; 1] = update_mv_row(r, [probs.mv_sign_prob[0]], Ghost(st), Ghost(3));
    let class_0: [u8; 10] = update_mv_row(r, probs.mv_class_probs[0], Ghost(st), Ghost(4));
    let bit0: [u8; 1] = update_mv_row(r, [probs.mv_class0_bit_prob[0]], Ghost(st), Ghost(14));
    let bits_0: [u8; 10] = update_mv_row(r, probs.mv_bits_prob[0], Ghost(st), Ghost(15));
    let sign1: [u8; 1] = update_mv_row(r, [probs.mv_sign_prob[1]], Ghost(st), Ghost(25));
    let class_1: [u8; 10] = update_mv_row(r, probs.mv_class_probs[1], Ghost(st), Ghost(26));
    let bit1: [u8; 1] = update_mv_row(r, [probs.mv_class0_bit_prob[1]], Ghost(st), Ghost(36));
    let bits_1: [u8; 10] = update_mv_row(r, probs.mv_bits_prob[1], Ghost(st), Ghost(37));
    let c0fr_00: [u8; 3] = update_mv_row(r, probs.mv_class0_fr_probs[0][0], Ghost(st), Ghost(47));
    let c0fr_01: [u8; 3] = update_mv_row(r, probs.mv_class0_fr_probs[0][1], Ghost(st), Ghost(50));
    let fr_0: [u8; 3] = update_mv_row(r, probs.mv_fr_probs[0], Ghost(st), Ghost(53));
    let c0fr_10: [u8; 3] = update_mv_row(r, probs.mv_class0_fr_probs[1][0], Ghost(st), Ghost(56));
    let c0fr_11: [u8; 3] = update_mv_row(r, probs.mv_class0_fr_probs[1][1], Ghost(st), Ghost(59));
    let fr_1: [u8; 3] = update_mv_row(r, probs.mv_fr_probs[1], Ghost(st), Ghost(62));
    probs.mv_joint_probs = joints;
    probs.mv_sign_prob = [sign0[0], sign1[0]];
    probs.mv_class_probs = [class_0, class_1];
    probs.mv_class0_bit_prob = [bit0[0], bit1[0]];
    probs.mv_bits_prob = [bits_0, bits_1];
    probs.mv_class0_fr_probs = [[c0fr_00, c0fr_01], [c0fr_10, c0fr_11]];
    probs.mv_fr_probs = [fr_0, fr_1];
    if allow_high_precision_mv {
        let hp0: [u8; 2] = update_mv_row(
            r,
            [probs.mv_class0_hp_prob[0], probs.mv_hp_prob[0]],
            Ghost(st),
            Ghost(65),
        );
        let hp1: [u8; 2] = update_mv_row(
            r,
            [probs.mv_class0_hp_prob[1], probs.mv_hp_prob[1]],
            Ghost(st),
            Ghost(67),
        );
        probs.mv_class0_hp_prob = [hp0[0], hp1[0]];
        probs.mv_hp_prob = [hp0[1], hp1[1]];
    }
}

// ---------------------------------------------------------------------------
// The header as a whole.
// ---------------------------------------------------------------------------

/// The state after the marker.
pub open spec fn start_state(d: Seq<u8>) -> BoolState {
    after_bool(d, loaded_state(d), 128)
}

/// The transform mode.
pub open spec fn tx_mode_of(d: Seq<u8>, h: NewFrameHeader) -> int {
    tx_mode_at(d, start_state(d), h.quantization.lossless)
}

/// The state before the transform size probabilities.
pub open spec fn tx_state(d: Seq<u8>, h: NewFrameHeader) -> BoolState {
    after_tx_mode(d, start_state(d), h.quantization.lossless)
}

/// The state before the coefficient probabilities.
pub open spec fn coefs_state(d: Seq<u8>, h: NewFrameHeader) -> BoolState {
    if tx_mode_of(d, h) == TX_MODE_SELECT {
        after_updates(d, tx_state(d, h), 12)
    } else {
        tx_state(d, h)
    }
}

/// The largest transform size.
pub open spec fn biggest_tx_size(d: Seq<u8>, h: NewFrameHeader) -> int {
    TX_MODE_TO_BIGGEST_TX_SIZE[tx_mode_of(d, h)] as int
}

/// The state before the skip probabilities.
pub open spec fn skip_state(d: Seq<u8>, h: NewFrameHeader) -> BoolState {
    coef_state(d, coefs_state(d, h), (biggest_tx_size(d, h) + 1) as nat)
}

/// The state before the inter mode probabilities.
pub open spec fn inter_state(d: Seq<u8>, h: NewFrameHeader) -> BoolState {
    after_updates(d, skip_state(d, h), 3)
}

/// The state before the interpolation filter probabilities.
pub open spec fn interp_state(d: Seq<u8>, h: NewFrameHeader) -> BoolState {
    after_updates(d, inter_state(d, h), 21)
}

/// The state before the intra/inter probabilities.
pub open spec fn is_inter_state(d: Seq<u8>, h: NewFrameHeader) -> BoolState {
    if h.interpolation_filter == SWITCHABLE {
        after_updates(d, interp_state(d, h), 8)
    } else {
        interp_state(d, h)
    }
}

/// The state before the reference mode.
pub open spec fn ref_mode_state(d: Seq<u8>, h: NewFrameHeader) -> BoolState {
    after_updates(d, is_inter_state(d, h), 4)
}

/// The reference mode; single in an intra frame.
pub open spec fn reference_mode_of(d: Seq<u8>, h: NewFrameHeader) -> u8 {
    if h.frame_is_intra {
        SINGLE_REFERENCE
    } else {
        reference_mode_at(d, ref_mode_state(d, h), h.ref_frame_sign_bias@)
    }
}

/// The state before the compound mode probabilities.
pub open spec fn comp_mode_state(d: Seq<u8>, h: NewFrameHeader) -> BoolState {
    after_reference_mode(d, ref_mode_state(d, h), h.ref_frame_sign_bias@)
}

/// The state before the single reference probabilities.
pub open spec fn single_ref_state(d: Seq<u8>, h: NewFrameHeader) -> BoolState {
    if reference_mode_of(d, h) == REFERENCE_MODE_SELECT {
        after_updates(d, comp_mode_state(d, h), 5)
    } else {
        comp_mode_state(d, h)
    }
}

/// The state before the compound reference probabilities.
pub open spec fn comp_ref_state(d: Seq<u8>, h: NewFrameHeader) -> BoolState {
    if reference_mode_of(d, h) != COMPOUND_REFERENCE {
        after_updates(d, single_ref_state(d, h), 10)
    } else {
        single_ref_state(d, h)
    }
}

/// The state before the luma mode probabilities.
pub open spec fn y_mode_state(d: Seq<u8>, h: NewFrameHeader) -> BoolState {
    if reference_mode_of(d, h) != SINGLE_REFERENCE {
        after_updates(d, comp_ref_state(d, h), 5)
    } else {
        comp_ref_state(d, h)
    }
}

/// The state before the partition probabilities.
pub open spec fn partition_state(d: Seq<u8>, h: NewFrameHeader) -> BoolState {
    after_updates(d, y_mode_state(d, h), 36)
}

/// The state before the motion vector probabilities.
pub open spec fn mv_state(d: Seq<u8>, h: NewFrameHeader) -> BoolState {
    after_updates(d, partition_state(d, h), 48)
}

/// What the header makes of the tables that every frame has.
pub open spec fn common_tables_updated(
    d: Seq<u8>,
    h: NewFrameHeader,
    b: CompressedHeaderProbs,
    a: CompressedHeaderProbs,
) -> bool {
    &&& if tx_mode_of(d, h) == TX_MODE_SELECT {
        tx_updated(d, tx_state(d, h), b.tx_probs, a.tx_probs)
    } else {
        a.tx_probs == b.tx_probs
    }
    &&& coef_updated(d, coefs_state(d, h), biggest_tx_size(d, h), b.coef_probs, a.coef_probs)
    &&& row_updated(d, skip_state(d, h), b.skip_prob, a.skip_prob, 3)
    &&& a.uv_mode_probs == b.uv_mode_probs
}

/// What the header of an inter frame makes of the tables that only inter frames
/// use, but for the motion vector tables.
pub open spec fn inter_tables_updated(
    d: Seq<u8>,
    h: NewFrameHeader,
    b: CompressedHeaderProbs,
    a: CompressedHeaderProbs,
) -> bool {
    &&& rows_updated(d, inter_state(d, h), b.inter_mode_probs, a.inter_mode_probs)
    &&& if h.interpolation_filter == SWITCHABLE {
        rows_updated(d, interp_state(d, h), b.interp_filter_probs, a.interp_filter_probs)
    } else {
        a.interp_filter_probs == b.interp_filter_probs
    }
    &&& row_updated(d, is_inter_state(d, h), b.is_inter_prob, a.is_inter_prob, 4)
    &&& if reference_mode_of(d, h) == REFERENCE_MODE_SELECT {
        row_updated(d, comp_mode_state(d, h), b.comp_mode_prob, a.comp_mode_prob, 5)
    } else {
        a.comp_mode_prob == b.comp_mode_prob
    }
    &&& if reference_mode_of(d, h) != COMPOUND_REFERENCE {
        rows_updated(d, single_ref_state(d, h), b.single_ref_prob, a.single_ref_prob)
    } else {
        a.single_ref_prob == b.single_ref_prob
    }
    &&& if reference_mode_of(d, h) != SINGLE_REFERENCE {
        row_updated(d, comp_ref_state(d, h), b.comp_ref_prob, a.comp_ref_prob, 5)
    } else {
        a.comp_ref_prob == b.comp_ref_prob
    }
    &&& rows_updated(d, y_mode_state(d, h), b.y_mode_probs, a.y_mode_probs)
    &&& rows_updated(d, partition_state(d, h), b.partition_probs, a.partition_probs)
}

/// The tables that only inter frames use are the same.
pub open spec fn same_inter(a: CompressedHeaderProbs, b: CompressedHeaderProbs) -> bool {
    &&& a.inter_mode_probs == b.inter_mode_probs
    &&& a.interp_filter_probs == b.interp_filter_probs
    &&& a.is_inter_prob == b.is_inter_prob
    &&& a.comp_mode_prob == b.comp_mode_prob
    &&& a.single_ref_prob == b.single_ref_prob
    &&& a.comp_ref_prob == b.comp_ref_prob
    &&& a.y_mode_probs == b.y_mode_probs
    &&& a.partition_probs == b.partition_probs
    &&& same_mv(a, b)
}

/// The tables that every frame has are the same.
pub open spec fn same_common(a: CompressedHeaderProbs, b: CompressedHeaderProbs) -> bool {
    &&& a.tx_probs == b.tx_probs
    &&& a.coef_probs == b.coef_probs
    &&& a.skip_prob == b.skip_prob
    &&& a.uv_mode_probs == b.uv_mode_probs
}

/// What a compressed header holds, given the tables before it.
pub open spec fn compressed_header_at(
    d: Seq<u8>,
    h: NewFrameHeader,
    before: CompressedHeaderProbs,
    c: CompressedHeader,
) -> bool {
    let after = *c.probs;
    let mode = reference_mode_of(d, h);
    &&& c.tx_mode == tx_mode_of(d, h)
    &&& c.reference_mode == mode
    &&& c.comp_fixed_ref == mode_refs(mode, h.ref_frame_sign_bias@).0
    &&& c.comp_var_ref@ == mode_refs(mode, h.ref_frame_sign_bias@).1
    &&& common_tables_updated(d, h, before, after)
    &&& if h.frame_is_intra {
        same_inter(before, after)
    } else {
        &&& inter_tables_updated(d, h, before, after)
        &&& mv_tables_updated(d, mv_state(d, h), h.allow_high_precision_mv, before, after)
    }
}

/// Updates the tables that every frame has; gives the transform mode.
#[verifier::spinoff_prover]
fn read_common_tables(
    r: &mut BoolDecoder,
    header: &NewFrameHeader,
    probs: &mut CompressedHeaderProbs,
) -> (tx_mode: u8)
    requires
        old(r).state() == start_state(old(r).bytes()),
        probs_valid(*old(probs)),
    ensures
        tx_mode == tx_mode_of(old(r).bytes(), *header),
        tx_mode <= TX_MODE_SELECT,
        common_tables_updated(old(r).bytes(), *header, *old(probs), *final(probs)),
        same_inter(*old(probs), *final(probs)),
        probs_valid(*final(probs)),
        final(r).bytes() == old(r).bytes(),
        final(r).state() == inter_state(old(r).bytes(), *header),
{
    let tx_mode: u8 = read_tx_mode(r, header.quantization.lossless);
    if tx_mode == TX_MODE_SELECT {
        probs.tx_probs = read_tx_mode_probs(r, probs.tx_probs);
    }
    probs.coef_probs = read_coef_probs(r, tx_mode, probs.coef_probs);
    probs.skip_prob = update_row(r, probs.skip_prob, 3);
    tx_mode
}

/// Updates the tables that depend on the reference mode.
#[verifier::spinoff_prover]
fn frame_reference_mode_probs(
    r: &mut BoolDecoder,
    reference_mode: u8,
    probs: &mut CompressedHeaderProbs,
    Ghost(h): Ghost<NewFrameHeader>,
)
    requires
        old(r).state() == comp_mode_state(old(r).bytes(), h),
        reference_mode == reference_mode_of(old(r).bytes(), h),
        probs_valid(*old(probs)),
    ensures
        final(probs).comp_mode_prob == old(probs).comp_mode_prob || reference_mode
            == REFERENCE_MODE_SELECT,
        reference_mode == REFERENCE_MODE_SELECT ==> row_updated(
            old(r).bytes(),
            comp_mode_state(old(r).bytes(), h),
            old(probs).comp_mode_prob,
            final(probs).comp_mode_prob,
            5,
        ),
        final(probs).single_ref_prob == old(probs).single_ref_prob || reference_mode
            != COMPOUND_REFERENCE,
        reference_mode != COMPOUND_REFERENCE ==> rows_updated(
            old(r).bytes(),
            single_ref_state(old(r).bytes(), h),
            old(probs).single_ref_prob,
            final(probs).single_ref_prob,
        ),
        final(probs).comp_ref_prob == old(probs).comp_ref_prob || reference_mode
            != SINGLE_REFERENCE,
        reference_mode != SINGLE_REFERENCE ==> row_updated(
            old(r).bytes(),
            comp_ref_state(old(r).bytes(), h),
            old(probs).comp_ref_prob,
            final(probs).comp_ref_prob,
            5,
        ),
        final(probs).inter_mode_probs == old(probs).inter_mode_probs,
        final(probs).interp_filter_probs == old(probs).interp_filter_probs,
        final(probs).is_inter_prob == old(probs).is_inter_prob,
        final(probs).y_mode_probs == old(probs).y_mode_probs,
        final(probs).partition_probs == old(probs).partition_probs,
        same_mv(*old(probs), *final(probs)),
        same_common(*old(probs), *final(probs)),
        probs_valid(*final(probs)),
        final(r).bytes() == old(r).bytes(),
        final(r).state() == y_mode_state(old(r).bytes(), h),
{
    if reference_mode == REFERENCE_MODE_SELECT {
        probs.comp_mode_prob = update_row(r, probs.comp_mode_prob, 5);
    }
    if reference_mode != COMPOUND_REFERENCE {
        probs.single_ref_prob = update_rows(r, probs.single_ref_prob);
    }
    if reference_mode != SINGLE_REFERENCE {
        probs.comp_ref_prob = update_row(r, probs.comp_ref_prob, 5);
    }
}

/// Updates the tables that only inter frames use; gives the reference mode and
/// the references of compound prediction.
#[verifier::spinoff_prover]
#[verifier::rlimit(60)]
fn read_inter_tables(
    r: &mut BoolDecoder,
    header: &NewFrameHeader,
    probs: &mut CompressedHeaderProbs,
) -> (m: (u8, u8, [u8; 2]))
    requires
        old(r).state() == inter_state(old(r).bytes(), *header),
        !header.frame_is_intra,
        probs_valid(*old(probs)),
    ensures
        m.0 == reference_mode_of(old(r).bytes(), *header),
        m.1 == mode_refs(m.0, header.ref_frame_sign_bias@).0,
        m.2@ == mode_refs(m.0, header.ref_frame_sign_bias@).1,
        inter_tables_updated(old(r).bytes(), *header, *old(probs), *final(probs)),
        mv_tables_updated(
            old(r).bytes(),
            mv_state(old(r).bytes(), *header),
            header.allow_high_precision_mv,
            *old(probs),
            *final(probs),
        ),
        same_common(*old(probs), *final(probs)),
        probs_valid(*final(probs)),
        final(r).bytes() == old(r).bytes(),
{
    let ghost d = r.bytes();
    probs.inter_mode_probs = update_rows(r, probs.inter_mode_probs);
    if header.interpolation_filter == SWITCHABLE {
        probs.interp_filter_probs = update_rows(r, probs.interp_filter_probs);
    }
    probs.is_inter_prob = update_row(r, probs.is_inter_prob, 4);
    let m: (u8, u8, [u8; 2]) = frame_reference_mode(r, &header.ref_frame_sign_bias);
    frame_reference_mode_probs(r, m.0, probs, Ghost(*header));
    probs.y_mode_probs = update_rows(r, probs.y_mode_probs);
    probs.partition_probs = update_rows(r, probs.partition_probs);
    mv_probs(r, header.allow_high_precision_mv, probs);
    m
}

/// Reads a compressed header. `starting_probs` are the tables to update.
#[verifier::spinoff_prover]
pub fn parse_compressed_header(
    data: &[u8],
    header: &NewFrameHeader,
    starting_probs: FrameContext,
) -> (res: Result<CompressedHeader, CompressedHeaderError>)
    requires
        8 * data.len() <= usize::MAX,
        probs_valid(starting_probs),
    ensures
        match res {
            Ok(c) => {
                &&& data.len() > 0
                &&& !decoded_bool(loaded_state(data@), 128)
                &&& compressed_header_at(data@, *header, starting_probs, c)
                &&& probs_valid(*c.probs)
            },
            Err(CompressedHeaderError::BoolCoder(BoolCoderError::EmptyBuffer)) => data.len() == 0,
            Err(CompressedHeaderError::BoolCoder(BoolCoderError::InvalidMarker)) => {
                &&& data.len() > 0
                &&& decoded_bool(loaded_state(data@), 128)
            },
        },
{
    let mut r: BoolDecoder = match BoolDecoder::new(data) {
        Ok(r) => r,
        Err(e) => {
            return Err(CompressedHeaderError::BoolCoder(e));
        },
    };
    let mut probs: CompressedHeaderProbs = starting_probs;
    let tx_mode: u8 = read_common_tables(&mut r, header, &mut probs);
    let mut reference_mode: u8 = SINGLE_REFERENCE;
    let mut comp_fixed_ref: u8 = 0;
    let mut comp_var_ref: [u8; 2] = [0; 2];
    assert(comp_var_ref@ =~= seq![0u8, 0u8]);
    if !header.frame_is_intra {
        let (mode, fixed_ref, var_ref) = read_inter_tables(&mut r, header, &mut probs);
        reference_mode = mode;
        comp_fixed_ref = fixed_ref;
        comp_var_ref = var_ref;
    }
    r.exit_bool();
    Ok(
        CompressedHeader {
            tx_mode,
            probs: Arc::new(probs),
            reference_mode,
            comp_fixed_ref,
            comp_var_ref,
        },
    )
}

} // verus!
