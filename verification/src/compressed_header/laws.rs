//! What a compressed header does: how one update is coded, and which update is for
//! which probability.

use vstd::arithmetic::power2::lemma2_to64;
use vstd::prelude::*;
use crate::bool_coder::{after_bool, after_literal, decoded_bool, decoded_literal, BoolState};
use crate::header::NewFrameHeader;
use crate::test_support::{
    decoder_before, is_code_of, lemma_bools_read_back, lemma_literal_read_back, literal_bools,
};
use super::{
    after_mv_update, after_mv_updates, after_update, after_updates, coef_state,
    compressed_header_at, lemma_after_updates_concat, mv_updated_prob, reference_mode_of, remapped,
    start_state, term_subexp, updated_prob, CompressedHeader, CompressedHeaderProbs,
};

verus! {

// ---------------------------------------------------------------------------
// One update.
// ---------------------------------------------------------------------------

/// How a number up to 254 is written: in 4 bits behind a 0, less 16 in 4 bits behind
/// 10, less 32 in 5 bits behind 110, and behind 111 less 64 in 7 bits, or from 129 on
/// one more than it in 8 bits.
pub open spec fn code_bools(v: int) -> Seq<(bool, u8)> {
    if v < 16 {
        seq![(false, 128u8)] + literal_bools(v, 4)
    } else if v < 32 {
        seq![(true, 128u8), (false, 128u8)] + literal_bools(v - 16, 4)
    } else if v < 64 {
        seq![(true, 128u8), (true, 128u8), (false, 128u8)] + literal_bools(v - 32, 5)
    } else if v < 129 {
        seq![(true, 128u8), (true, 128u8), (true, 128u8)] + literal_bools(v - 64, 7)
    } else {
        seq![(true, 128u8), (true, 128u8), (true, 128u8)] + literal_bools((v + 1) / 2, 7)
            + literal_bools((v + 1) % 2, 1)
    }
}

/// How an update is written: whether there is one, and its code.
pub open spec fn update_bools(u: Option<int>) -> Seq<(bool, u8)> {
    match u {
        None => seq![(false, 252u8)],
        Some(v) => seq![(true, 252u8)] + code_bools(v),
    }
}

/// What an update makes of a probability.
pub open spec fn applied(u: Option<int>, prob: u8) -> u8 {
    match u {
        None => prob,
        Some(v) => remapped(v, prob) as u8,
    }
}

proof fn lemma_next(data: Seq<u8>, bools: Seq<(bool, u8)>, k: nat)
    requires
        is_code_of(data, bools),
        k < bools.len(),
    ensures
        decoded_bool(decoder_before(data, bools, k), bools[k as int].1) == bools[k as int].0,
        after_bool(data, decoder_before(data, bools, k), bools[k as int].1) == decoder_before(
            data,
            bools,
            k + 1,
        ),
{
    lemma_bools_read_back(data, bools, k);
}

proof fn lemma_literal_at(
    data: Seq<u8>,
    bools: Seq<(bool, u8)>,
    k: nat,
    part: Seq<(bool, u8)>,
    at: nat,
    v: int,
    n: nat,
)
    requires
        is_code_of(data, bools),
        k + part.len() <= bools.len(),
        bools.subrange(k as int, (k + part.len()) as int) == part,
        at + n <= part.len(),
        part.subrange(at as int, (at + n) as int) == literal_bools(v, n),
        0 <= v < vstd::arithmetic::power2::pow2(n),
    ensures
        decoded_literal(data, decoder_before(data, bools, k + at), n) == v,
        after_literal(data, decoder_before(data, bools, k + at), n) == decoder_before(
            data,
            bools,
            k + at + n,
        ),
{
    assert(bools.subrange((k + at) as int, (k + at + n) as int) =~= part.subrange(
        at as int,
        (at + n) as int,
    ));
    lemma_literal_read_back(data, bools, k + at, v, n);
}

/// A code that was written is read back.
#[verifier::spinoff_prover]
pub proof fn lemma_code_read_back(data: Seq<u8>, bools: Seq<(bool, u8)>, k: nat, v: int)
    requires
        is_code_of(data, bools),
        0 <= v <= 254,
        k + code_bools(v).len() <= bools.len(),
        bools.subrange(k as int, (k + code_bools(v).len()) as int) == code_bools(v),
    ensures
        term_subexp(data, decoder_before(data, bools, k)) == v,
        super::after_term_subexp(data, decoder_before(data, bools, k)) == decoder_before(
            data,
            bools,
            k + code_bools(v).len(),
        ),
{
    lemma2_to64();
    let part = code_bools(v);
    assert forall|i: int| 0 <= i < part.len() implies #[trigger] bools[k + i] == part[i] by {
        assert(bools.subrange(k as int, (k + part.len()) as int)[i] == bools[k + i]);
    }
    assert(literal_bools(v, 4).len() == 4);
    lemma_next(data, bools, k);
    assert(bools[k as int + 0] == part[0]);
    if v < 16 {
        assert(part.subrange(1, 5) =~= literal_bools(v, 4));
        lemma_literal_at(data, bools, k, part, 1, v, 4);
    } else if v < 32 {
        assert(literal_bools(v - 16, 4).len() == 4);
        assert(bools[k as int + 1] == part[1]);
        lemma_next(data, bools, k + 1);
        assert(part.subrange(2, 6) =~= literal_bools(v - 16, 4));
        lemma_literal_at(data, bools, k, part, 2, v - 16, 4);
    } else if v < 64 {
        assert(literal_bools(v - 32, 5).len() == 5);
        assert(bools[k as int + 1] == part[1] && bools[k as int + 2] == part[2]);
        lemma_next(data, bools, k + 1);
        lemma_next(data, bools, k + 2);
        assert(part.subrange(3, 8) =~= literal_bools(v - 32, 5));
        lemma_literal_at(data, bools, k, part, 3, v - 32, 5);
    } else if v < 129 {
        assert(literal_bools(v - 64, 7).len() == 7);
        assert(bools[k as int + 1] == part[1] && bools[k as int + 2] == part[2]);
        lemma_next(data, bools, k + 1);
        lemma_next(data, bools, k + 2);
        assert(part.subrange(3, 10) =~= literal_bools(v - 64, 7));
        lemma_literal_at(data, bools, k, part, 3, v - 64, 7);
    } else {
        let w = (v + 1) / 2;
        let bit = (v + 1) % 2;
        assert(literal_bools(w, 7).len() == 7 && literal_bools(bit, 1).len() == 1);
        assert(bools[k as int + 1] == part[1] && bools[k as int + 2] == part[2]);
        lemma_next(data, bools, k + 1);
        lemma_next(data, bools, k + 2);
        assert(part.subrange(3, 10) =~= literal_bools(w, 7));
        assert(part.subrange(10, 11) =~= literal_bools(bit, 1));
        lemma_literal_at(data, bools, k, part, 3, w, 7);
        lemma_literal_at(data, bools, k, part, 10, bit, 1);
        assert(k + 3 + 7 == k + 10);
    }
}

/// An update that was written is read back, and applied.
pub proof fn lemma_update_read_back(
    data: Seq<u8>,
    bools: Seq<(bool, u8)>,
    k: nat,
    u: Option<int>,
    prob: u8,
)
    requires
        is_code_of(data, bools),
        u matches Some(v) ==> 0 <= v <= 254,
        k + update_bools(u).len() <= bools.len(),
        bools.subrange(k as int, (k + update_bools(u).len()) as int) == update_bools(u),
    ensures
        updated_prob(data, decoder_before(data, bools, k), prob) == applied(u, prob),
        after_update(data, decoder_before(data, bools, k)) == decoder_before(
            data,
            bools,
            k + update_bools(u).len(),
        ),
{
    let part = update_bools(u);
    assert(bools.subrange(k as int, (k + part.len()) as int)[0] == bools[k as int]);
    lemma_next(data, bools, k);
    match u {
        None => {},
        Some(v) => {
            assert(bools.subrange((k + 1) as int, (k + 1 + code_bools(v).len()) as int)
                =~= part.subrange(1, part.len() as int));
            assert(part.subrange(1, part.len() as int) =~= code_bools(v));
            lemma_code_read_back(data, bools, k + 1, v);
        },
    }
}

/// How a run of updates is written: one after the other.
pub open spec fn run_bools(us: Seq<Option<int>>, n: nat) -> Seq<(bool, u8)>
    decreases n,
{
    if n == 0 {
        Seq::empty()
    } else {
        run_bools(us, (n - 1) as nat) + update_bools(us[n - 1])
    }
}

proof fn lemma_run_prefix(us: Seq<Option<int>>, i: nat, n: nat)
    requires
        i <= n <= us.len(),
    ensures
        run_bools(us, i).len() <= run_bools(us, n).len(),
        run_bools(us, n).subrange(0, run_bools(us, i).len() as int) == run_bools(us, i),
    decreases n,
{
    if i < n {
        lemma_run_prefix(us, i, (n - 1) as nat);
        let head = run_bools(us, (n - 1) as nat);
        assert(run_bools(us, n).subrange(0, run_bools(us, i).len() as int) =~= head.subrange(
            0,
            run_bools(us, i).len() as int,
        ));
    } else {
        assert(run_bools(us, n).subrange(0, run_bools(us, n).len() as int) =~= run_bools(us, n));
    }
}

/// A run of updates that was written is read back: the `i`-th update of the run is
/// the `i`-th that was written.
pub proof fn lemma_run_read_back(
    data: Seq<u8>,
    bools: Seq<(bool, u8)>,
    k: nat,
    us: Seq<Option<int>>,
    i: nat,
    prob: u8,
)
    requires
        is_code_of(data, bools),
        forall|j: int|
            0 <= j < us.len() ==> (#[trigger] us[j] matches Some(v) ==> 0 <= v <= 254),
        k + run_bools(us, us.len()).len() <= bools.len(),
        bools.subrange(k as int, (k + run_bools(us, us.len()).len()) as int) == run_bools(
            us,
            us.len(),
        ),
        i <= us.len(),
    ensures
        after_updates(data, decoder_before(data, bools, k), i) == decoder_before(
            data,
            bools,
            k + run_bools(us, i).len(),
        ),
        i < us.len() ==> updated_prob(
            data,
            after_updates(data, decoder_before(data, bools, k), i),
            prob,
        ) == applied(us[i as int], prob),
    decreases i,
{
    let whole = run_bools(us, us.len());
    if i > 0 {
        let j = (i - 1) as nat;
        lemma_run_read_back(data, bools, k, us, j, prob);
        lemma_run_prefix(us, i, us.len());
        lemma_run_prefix(us, j, us.len());
        let at = k + run_bools(us, j).len();
        lemma_in_run(data, bools, k, us, j);
        lemma_update_read_back(data, bools, at, us[j as int], prob);
        assert(after_updates(data, decoder_before(data, bools, k), i) == after_update(
            data,
            after_updates(data, decoder_before(data, bools, k), j),
        ));
    }
    if i < us.len() {
        lemma_in_run(data, bools, k, us, i);
        lemma_update_read_back(data, bools, k + run_bools(us, i).len(), us[i as int], prob);
    }
}

proof fn lemma_in_run(
    data: Seq<u8>,
    bools: Seq<(bool, u8)>,
    k: nat,
    us: Seq<Option<int>>,
    j: nat,
)
    requires
        k + run_bools(us, us.len()).len() <= bools.len(),
        bools.subrange(k as int, (k + run_bools(us, us.len()).len()) as int) == run_bools(
            us,
            us.len(),
        ),
        j < us.len(),
    ensures
        ({
            let at = k + run_bools(us, j).len();
            let part = update_bools(us[j as int]);
            &&& at + part.len() <= bools.len()
            &&& bools.subrange(at as int, (at + part.len()) as int) == part
        }),
{
    let whole = run_bools(us, us.len());
    let next = (j + 1) as nat;
    lemma_run_prefix(us, next, us.len());
    let at = k + run_bools(us, j).len();
    let part = update_bools(us[j as int]);
    let head = run_bools(us, next);
    assert(head == run_bools(us, j) + part);
    assert(whole.subrange(0, head.len() as int) == head);
    assert forall|i: int| 0 <= i < part.len() implies bools.subrange(
        at as int,
        (at + part.len()) as int,
    )[i] == part[i] by {
        let q = run_bools(us, j).len() + i;
        assert(bools.subrange(k as int, (k + whole.len()) as int)[q] == bools[k + q]);
        assert(whole.subrange(0, head.len() as int)[q] == whole[q]);
        assert(head[q] == part[i]);
    }
    assert(bools.subrange(at as int, (at + part.len()) as int) =~= part);
}

/// An update of a motion vector probability that was written is read back: the new
/// value is odd, and its seven high bits are coded.
pub proof fn lemma_vector_update_read_back(
    data: Seq<u8>,
    bools: Seq<(bool, u8)>,
    k: nat,
    u: Option<int>,
    prob: u8,
)
    requires
        is_code_of(data, bools),
        u matches Some(v) ==> 0 <= v <= 127,
        ({
            let part = match u {
                None => seq![(false, 252u8)],
                Some(v) => seq![(true, 252u8)] + literal_bools(v, 7),
            };
            k + part.len() <= bools.len() && bools.subrange(k as int, (k + part.len()) as int)
                == part
        }),
    ensures
        mv_updated_prob(data, decoder_before(data, bools, k), prob) == match u {
            None => prob,
            Some(v) => (2 * v + 1) as u8,
        },
        after_mv_update(data, decoder_before(data, bools, k)) == decoder_before(
            data,
            bools,
            if u is None {
                k + 1
            } else {
                k + 8
            },
        ),
{
    lemma2_to64();
    let part = match u {
        None => seq![(false, 252u8)],
        Some(v) => seq![(true, 252u8)] + literal_bools(v, 7),
    };
    assert(bools.subrange(k as int, (k + part.len()) as int)[0] == bools[k as int]);
    lemma_next(data, bools, k);
    match u {
        None => {},
        Some(v) => {
            assert(literal_bools(v, 7).len() == 7);
            assert(part.subrange(1, 8) =~= literal_bools(v, 7));
            lemma_literal_at(data, bools, k, part, 1, v, 7);
        },
    }
}

// ---------------------------------------------------------------------------
// The order of updates.
// ---------------------------------------------------------------------------

/// `after` is `before` with update number `n` from `st` on applied.
pub open spec fn takes(d: Seq<u8>, st: BoolState, n: int, before: u8, after: u8) -> bool {
    after == updated_prob(d, after_updates(d, st, n as nat), before)
}

/// `after` is `before` with vector update number `n` from `st` on applied.
pub open spec fn takes_vector(d: Seq<u8>, st: BoolState, n: int, before: u8, after: u8) -> bool {
    after == mv_updated_prob(d, after_mv_updates(d, st, n as nat), before)
}

/// The transform mode is 0 in a lossless frame; otherwise two bits, and one more
/// where both are set. Where blocks choose, twelve updates follow: those of the
/// transforms up to 8x8, to 16x16 and to 32x32, two contexts each.
#[verifier::spinoff_prover]
#[verifier::rlimit(40)]
pub proof fn lemma_transform_updates(
    d: Seq<u8>,
    h: NewFrameHeader,
    b: CompressedHeaderProbs,
    c: CompressedHeader,
    k: int,
    n: int,
)
    requires
        compressed_header_at(d, h, b, c),
        0 <= k < 2,
        0 <= n < 3,
    ensures
        ({
            let st = after_bool(d, crate::bool_coder::loaded_state(d), 128);
            let bits = decoded_literal(d, st, 2);
            let s2 = after_literal(d, st, 2);
            let a = *c.probs;
            &&& h.quantization.lossless ==> c.tx_mode == 0
            &&& !h.quantization.lossless && bits < 3 ==> c.tx_mode == bits
            &&& !h.quantization.lossless && bits == 3 ==> c.tx_mode == 3 + decoded_literal(d, s2, 1)
            &&& c.tx_mode != 4 ==> a.tx_probs == b.tx_probs
            &&& c.tx_mode == 4 ==> {
                let s3 = after_literal(d, s2, 1);
                &&& takes(d, s3, k, b.tx_probs[1][k][0], a.tx_probs[1][k][0])
                &&& n < 2 ==> takes(d, s3, 2 + 2 * k + n, b.tx_probs[2][k][n], a.tx_probs[2][k][n])
                &&& takes(d, s3, 6 + 3 * k + n, b.tx_probs[3][k][n], a.tx_probs[3][k][n])
            }
            &&& a.uv_mode_probs == b.uv_mode_probs
        }),
{
    let a = *c.probs;
    lemma_mode_bits(d, h);
    assert(super::common_tables_updated(d, h, b, a));
    if c.tx_mode == 4 {
        lemma_transform_numbers(d, super::tx_state(d, h), b.tx_probs, a.tx_probs, k, n);
    }
}

proof fn lemma_mode_bits(d: Seq<u8>, h: NewFrameHeader)
    ensures
        ({
            let st = start_state(d);
            let bits = decoded_literal(d, st, 2);
            let s2 = after_literal(d, st, 2);
            let m = super::tx_mode_of(d, h);
            &&& 0 <= bits <= 3
            &&& h.quantization.lossless ==> m == 0
            &&& !h.quantization.lossless && bits < 3 ==> m == bits
            &&& !h.quantization.lossless && bits == 3 ==> m == 3 + decoded_literal(d, s2, 1)
            &&& m == 4 ==> super::tx_state(d, h) == after_literal(d, s2, 1)
            &&& 0 <= m <= 4
        }),
{
    lemma_small_literals(d, start_state(d));
    lemma_small_literals(d, after_literal(d, start_state(d), 2));
}

proof fn lemma_transform_numbers(
    d: Seq<u8>,
    st: BoolState,
    before: [[[u8; 3]; 2]; 4],
    after: [[[u8; 3]; 2]; 4],
    k: int,
    n: int,
)
    requires
        super::tx_updated(d, st, before, after),
        0 <= k < 2,
        0 <= n < 3,
    ensures
        takes(d, st, k, before[1][k][0], after[1][k][0]),
        n < 2 ==> takes(d, st, 2 + 2 * k + n, before[2][k][n], after[2][k][n]),
        takes(d, st, 6 + 3 * k + n, before[3][k][n], after[3][k][n]),
{
    assert(super::tx_update_index(1, k, 0) == k);
    assert(super::tx_update_index(2, k, n) == 2 + 2 * k + n);
    assert(super::tx_update_index(3, k, n) == 6 + 3 * k + n);
    let a1 = after[1][k][0];
    let a2 = after[2][k][n];
    let a3 = after[3][k][n];
}

/// The state before the coefficient updates: behind the transform mode and, where
/// blocks choose transforms, the twelve updates for them.
pub open spec fn before_coefficients(d: Seq<u8>, h: NewFrameHeader, tx_mode: int) -> BoolState {
    let st = after_bool(d, crate::bool_coder::loaded_state(d), 128);
    let s2 = after_literal(d, st, 2);
    let s3 = after_literal(d, s2, 1);
    if h.quantization.lossless {
        st
    } else if tx_mode <= 2 {
        s2
    } else if tx_mode == 3 {
        s3
    } else {
        after_updates(d, s3, 12)
    }
}

/// For each transform size up to the largest of the transform mode, a bool tells
/// whether its coefficient probabilities are updated; if so, 396 updates follow: by
/// plane type, reference type, band, context and node, where band 0 has three
/// contexts and the others have six. Larger sizes stay.
#[verifier::spinoff_prover]
pub proof fn lemma_coefficient_updates(
    d: Seq<u8>,
    h: NewFrameHeader,
    b: CompressedHeaderProbs,
    c: CompressedHeader,
    t: int,
    i: int,
    j: int,
    k: int,
    l: int,
    m: int,
)
    requires
        compressed_header_at(d, h, b, c),
        0 <= t < 4,
        0 <= i < 2,
        0 <= j < 2,
        0 <= k < 6,
        0 <= l < 6,
        0 <= m < 3,
    ensures
        ({
            let first = before_coefficients(d, h, c.tx_mode as int);
            let largest = if c.tx_mode >= 3 {
                3
            } else {
                c.tx_mode as int
            };
            let st = coef_state(d, first, t as nat);
            let flag = decoded_bool(st, 128);
            let s1 = after_bool(d, st, 128);
            let old = b.coef_probs[t][i][j][k][l][m];
            let new = c.probs.coef_probs[t][i][j][k][l][m];
            let n = if k == 0 {
                198 * i + 99 * j + 3 * l + m
            } else {
                198 * i + 99 * j + 9 + 18 * (k - 1) + 3 * l + m
            };
            &&& c.tx_mode <= 4
            &&& t > largest || !flag || (k == 0 && l >= 3) ==> new == old
            &&& t <= largest && flag && (k >= 1 || l <= 2) ==> takes(d, s1, n, old, new)
            &&& coef_state(d, first, 0) == first
            &&& coef_state(d, first, (t + 1) as nat) == if flag {
                after_updates(d, s1, 396)
            } else {
                s1
            }
            &&& super::skip_state(d, h) == coef_state(d, first, (largest + 1) as nat)
        }),
{
    lemma_mode_range(d, h, b, c);
    let first = super::coefs_state(d, h);
    let st = coef_state(d, first, t as nat);
    let max = super::biggest_tx_size(d, h);
    lemma_coefficient_number(d, first, max, b.coef_probs, c.probs.coef_probs, t, i, j, k, l, m);
}

proof fn lemma_mode_range(
    d: Seq<u8>,
    h: NewFrameHeader,
    b: CompressedHeaderProbs,
    c: CompressedHeader,
)
    requires
        compressed_header_at(d, h, b, c),
    ensures
        0 <= c.tx_mode <= 4,
        super::coefs_state(d, h) == before_coefficients(d, h, c.tx_mode as int),
        super::biggest_tx_size(d, h) == if c.tx_mode >= 3 {
            3
        } else {
            c.tx_mode as int
        },
{
    lemma_small_literals(d, start_state(d));
    lemma_small_literals(d, after_literal(d, start_state(d), 2));
    let m = super::tx_mode_of(d, h);
    assert(c.tx_mode == m);
    assert(m == 0 || m == 1 || m == 2 || m == 3 || m == 4);
}

proof fn lemma_small_literals(d: Seq<u8>, st: BoolState)
    ensures
        0 <= decoded_literal(d, st, 1) <= 1,
        0 <= decoded_literal(d, st, 2) <= 3,
{
    reveal_with_fuel(decoded_literal, 3);
}

proof fn lemma_coefficient_number(
    d: Seq<u8>,
    first: BoolState,
    max: int,
    before: crate::prob_tables::CoefProbs,
    after: crate::prob_tables::CoefProbs,
    t: int,
    i: int,
    j: int,
    k: int,
    l: int,
    m: int,
)
    requires
        super::coef_updated(d, first, max, before, after),
        0 <= t < 4,
        0 <= i < 2,
        0 <= j < 2,
        0 <= k < 6,
        0 <= l < 6,
        0 <= m < 3,
    ensures
        ({
            let st = coef_state(d, first, t as nat);
            let flag = decoded_bool(st, 128);
            let s1 = after_bool(d, st, 128);
            let old = before[t][i][j][k][l][m];
            let new = after[t][i][j][k][l][m];
            let n = if k == 0 {
                198 * i + 99 * j + 3 * l + m
            } else {
                198 * i + 99 * j + 9 + 18 * (k - 1) + 3 * l + m
            };
            &&& t > max || !flag || (k == 0 && l >= 3) ==> new == old
            &&& t <= max && flag && (k >= 1 || l <= 2) ==> takes(d, s1, n, old, new)
        }),
{
    let st = coef_state(d, first, t as nat);
    let s1 = after_bool(d, st, 128);
    let bt = before[t];
    let at = after[t];
    if t <= max && decoded_bool(st, 128) {
        assert(super::size_updated(d, s1, bt, at));
        let bij = bt[i][j];
        let aij = at[i][j];
        let base = 99 * (2 * i + j);
        assert(super::bands_updated(d, after_updates(d, s1, base as nat), bij, aij));
        let q = 3 * (super::contexts_before(k) + l) + m;
        lemma_after_updates_concat(d, s1, base as nat, q as nat);
        let v = aij[k][l][m];
        assert(base + q == if k == 0 {
            198 * i + 99 * j + 3 * l + m
        } else {
            198 * i + 99 * j + 9 + 18 * (k - 1) + 3 * l + m
        });
        assert((base as nat + q as nat) as nat == (base + q) as nat);
    } else {
        assert(at == bt);
    }
}

proof fn lemma_row_number<const N: usize>(
    d: Seq<u8>,
    st: BoolState,
    first: int,
    before: [u8; N],
    after: [u8; N],
    j: int,
)
    requires
        super::row_updated(d, after_updates(d, st, first as nat), before, after, N as int),
        0 <= j < N,
        0 <= first,
    ensures
        takes(d, st, first + j, before[j], after[j]),
{
    lemma_after_updates_concat(d, st, first as nat, j as nat);
    let v = after[j];
    assert((first as nat + j as nat) as nat == (first + j) as nat);
}

proof fn lemma_rows_number<const N: usize, const M: usize>(
    d: Seq<u8>,
    st: BoolState,
    first: int,
    before: [[u8; N]; M],
    after: [[u8; N]; M],
    j: int,
    i: int,
)
    requires
        super::rows_updated(d, after_updates(d, st, first as nat), before, after),
        0 <= j < M,
        0 <= i < N,
        0 <= first,
    ensures
        takes(d, st, first + (j * N + i), before[j][i], after[j][i]),
{
    let n = j * N + i;
    assert(0 <= j * N) by (nonlinear_arith)
        requires
            0 <= j,
            0 <= N,
    ;
    lemma_after_updates_concat(d, st, first as nat, n as nat);
    let v = after[j][i];
    assert((first as nat + n as nat) as nat == (first + n) as nat);
}

/// Behind the coefficients come the updates of the skip flags and, in an inter
/// frame, those of the inter modes, of the filters where blocks choose them, and of
/// the inter flags. All others of an intra frame stay.
#[verifier::spinoff_prover]
pub proof fn lemma_flag_updates(
    d: Seq<u8>,
    h: NewFrameHeader,
    b: CompressedHeaderProbs,
    c: CompressedHeader,
    j: int,
    i: int,
)
    requires
        compressed_header_at(d, h, b, c),
        0 <= j < 7,
        0 <= i < 3,
    ensures
        ({
            let st = super::skip_state(d, h);
            let a = *c.probs;
            &&& j < 3 ==> takes(d, st, j, b.skip_prob[j], a.skip_prob[j])
            &&& !h.frame_is_intra ==> {
                &&& takes(d, st, 3 + 3 * j + i, b.inter_mode_probs[j][i], a.inter_mode_probs[j][i])
                &&& h.interpolation_filter == 4 && j < 4 && i < 2 ==> takes(
                    d,
                    st,
                    24 + 2 * j + i,
                    b.interp_filter_probs[j][i],
                    a.interp_filter_probs[j][i],
                )
                &&& h.interpolation_filter != 4 ==> a.interp_filter_probs == b.interp_filter_probs
                &&& j < 4 ==> takes(
                    d,
                    st,
                    if h.interpolation_filter == 4 {
                        32 + j
                    } else {
                        24 + j
                    },
                    b.is_inter_prob[j],
                    a.is_inter_prob[j],
                )
            }
            &&& h.frame_is_intra ==> {
                &&& a.inter_mode_probs == b.inter_mode_probs
                &&& a.interp_filter_probs == b.interp_filter_probs
                &&& a.is_inter_prob == b.is_inter_prob
                &&& a.comp_mode_prob == b.comp_mode_prob
                &&& a.single_ref_prob == b.single_ref_prob
                &&& a.comp_ref_prob == b.comp_ref_prob
                &&& a.y_mode_probs == b.y_mode_probs
                &&& a.partition_probs == b.partition_probs
                &&& a.mv_joint_probs == b.mv_joint_probs
                &&& a.mv_class_probs == b.mv_class_probs
            }
        }),
{
    let st = super::skip_state(d, h);
    let a = *c.probs;
    assert(after_updates(d, st, 0) == st);
    if j < 3 {
        lemma_row_number(d, st, 0, b.skip_prob, a.skip_prob, j);
    }
    if !h.frame_is_intra {
        lemma_rows_number(d, st, 3, b.inter_mode_probs, a.inter_mode_probs, j, i);
        lemma_after_updates_concat(d, st, 3, 21);
        if h.interpolation_filter == 4 {
            lemma_after_updates_concat(d, st, 24, 8);
            if j < 4 && i < 2 {
                lemma_rows_number(d, st, 24, b.interp_filter_probs, a.interp_filter_probs, j, i);
            }
            if j < 4 {
                lemma_row_number(d, st, 32, b.is_inter_prob, a.is_inter_prob, j);
            }
        } else if j < 4 {
            lemma_row_number(d, st, 24, b.is_inter_prob, a.is_inter_prob, j);
        }
    }
}

/// The state before the reference mode of an inter frame: behind the flags.
pub open spec fn before_reference_mode(d: Seq<u8>, h: NewFrameHeader) -> BoolState {
    after_updates(
        d,
        super::skip_state(d, h),
        if h.interpolation_filter == 4 {
            36
        } else {
            28
        },
    )
}

/// Two references can be had where the sign biases of the three differ. Then a bool
/// tells whether they are used, and another whether blocks choose.
pub proof fn lemma_reference_mode(
    d: Seq<u8>,
    h: NewFrameHeader,
    b: CompressedHeaderProbs,
    c: CompressedHeader,
)
    requires
        compressed_header_at(d, h, b, c),
        !h.frame_is_intra,
    ensures
        ({
            let st = before_reference_mode(d, h);
            let s1 = after_bool(d, st, 128);
            let bias = h.ref_frame_sign_bias;
            let differ = !(bias[1] == bias[2] && bias[2] == bias[3]);
            &&& super::comp_mode_state(d, h) == if !differ {
                st
            } else if !decoded_bool(st, 128) {
                s1
            } else {
                after_bool(d, s1, 128)
            }
            &&& c.reference_mode == if !differ || !decoded_bool(st, 128) {
                0u8
            } else if !decoded_bool(s1, 128) {
                1u8
            } else {
                2u8
            }
            &&& c.reference_mode != 0 ==> {
                let f = c.comp_fixed_ref as int;
                let v = c.comp_var_ref;
                &&& 1 <= f <= 3 && 1 <= v[0] < v[1] <= 3 && v[0] != f && v[1] != f
                &&& bias[v[0] as int] == bias[v[1] as int]
                &&& bias[f] != bias[v[0] as int]
            }
            &&& c.reference_mode == 0 ==> c.comp_fixed_ref == 0 && c.comp_var_ref[0] == 0
                && c.comp_var_ref[1] == 0
        }),
{
    let st = super::skip_state(d, h);
    lemma_after_updates_concat(d, st, 3, 21);
    lemma_after_updates_concat(d, st, 24, 8);
    lemma_after_updates_concat(d, st, 24, 4);
    lemma_after_updates_concat(d, st, 32, 4);
    assert(before_reference_mode(d, h) == super::ref_mode_state(d, h));
    let v = c.comp_var_ref@;
    assert(v[0] == c.comp_var_ref[0] && v[1] == c.comp_var_ref[1]);
}

/// Behind the reference mode come the updates of the reference flags that it needs,
/// then those of the luma modes and of the partitions.
#[verifier::spinoff_prover]
pub proof fn lemma_reference_updates(
    d: Seq<u8>,
    h: NewFrameHeader,
    b: CompressedHeaderProbs,
    c: CompressedHeader,
    j: int,
    i: int,
)
    requires
        compressed_header_at(d, h, b, c),
        !h.frame_is_intra,
        0 <= j < 16,
        0 <= i < 9,
    ensures
        ({
            let st = super::comp_mode_state(d, h);
            let a = *c.probs;
            let mode = c.reference_mode;
            let n1 = if mode == 2 {
                5
            } else {
                0int
            };
            let n2 = if mode != 1 {
                n1 + 10
            } else {
                n1
            };
            let n3 = if mode != 0 {
                n2 + 5
            } else {
                n2
            };
            &&& mode == 2 && j < 5 ==> takes(d, st, j, b.comp_mode_prob[j], a.comp_mode_prob[j])
            &&& mode != 2 ==> a.comp_mode_prob == b.comp_mode_prob
            &&& mode != 1 && j < 5 && i < 2 ==> takes(
                d,
                st,
                n1 + 2 * j + i,
                b.single_ref_prob[j][i],
                a.single_ref_prob[j][i],
            )
            &&& mode == 1 ==> a.single_ref_prob == b.single_ref_prob
            &&& mode != 0 && j < 5 ==> takes(
                d,
                st,
                n2 + j,
                b.comp_ref_prob[j],
                a.comp_ref_prob[j],
            )
            &&& mode == 0 ==> a.comp_ref_prob == b.comp_ref_prob
            &&& j < 4 ==> takes(d, st, n3 + 9 * j + i, b.y_mode_probs[j][i], a.y_mode_probs[j][i])
            &&& i < 3 ==> takes(
                d,
                st,
                n3 + 36 + 3 * j + i,
                b.partition_probs[j][i],
                a.partition_probs[j][i],
            )
            &&& super::mv_state(d, h) == after_updates(d, st, (n3 + 84) as nat)
        }),
{
    let a = *c.probs;
    lemma_reference_numbers(d, h, b, a, c.reference_mode, j, i);
}

#[verifier::spinoff_prover]
#[verifier::rlimit(60)]
proof fn lemma_reference_numbers(
    d: Seq<u8>,
    h: NewFrameHeader,
    b: CompressedHeaderProbs,
    a: CompressedHeaderProbs,
    mode: u8,
    j: int,
    i: int,
)
    requires
        super::inter_tables_updated(d, h, b, a),
        mode == reference_mode_of(d, h),
        mode <= 2,
        0 <= j < 16,
        0 <= i < 9,
    ensures
        ({
            let st = super::comp_mode_state(d, h);
            let n1 = if mode == 2 {
                5
            } else {
                0int
            };
            let n2 = if mode != 1 {
                n1 + 10
            } else {
                n1
            };
            let n3 = if mode != 0 {
                n2 + 5
            } else {
                n2
            };
            &&& mode == 2 && j < 5 ==> takes(d, st, j, b.comp_mode_prob[j], a.comp_mode_prob[j])
            &&& mode != 2 ==> a.comp_mode_prob == b.comp_mode_prob
            &&& mode != 1 && j < 5 && i < 2 ==> takes(
                d,
                st,
                n1 + 2 * j + i,
                b.single_ref_prob[j][i],
                a.single_ref_prob[j][i],
            )
            &&& mode == 1 ==> a.single_ref_prob == b.single_ref_prob
            &&& mode != 0 && j < 5 ==> takes(
                d,
                st,
                n2 + j,
                b.comp_ref_prob[j],
                a.comp_ref_prob[j],
            )
            &&& mode == 0 ==> a.comp_ref_prob == b.comp_ref_prob
            &&& j < 4 ==> takes(d, st, n3 + 9 * j + i, b.y_mode_probs[j][i], a.y_mode_probs[j][i])
            &&& i < 3 ==> takes(
                d,
                st,
                n3 + 36 + 3 * j + i,
                b.partition_probs[j][i],
                a.partition_probs[j][i],
            )
            &&& super::mv_state(d, h) == after_updates(d, st, (n3 + 84) as nat)
        }),
{
    let st = super::comp_mode_state(d, h);
    let n1: int = if mode == 2 {
        5
    } else {
        0
    };
    let n2 = if mode != 1 {
        n1 + 10
    } else {
        n1
    };
    let n3 = if mode != 0 {
        n2 + 5
    } else {
        n2
    };
    assert(after_updates(d, st, 0) == st);
    assert(super::single_ref_state(d, h) == after_updates(d, st, n1 as nat));
    lemma_after_updates_concat(d, st, n1 as nat, 10);
    assert(super::comp_ref_state(d, h) == after_updates(d, st, n2 as nat));
    lemma_after_updates_concat(d, st, n2 as nat, 5);
    assert(super::y_mode_state(d, h) == after_updates(d, st, n3 as nat));
    lemma_after_updates_concat(d, st, n3 as nat, 36);
    assert(super::partition_state(d, h) == after_updates(d, st, (n3 + 36) as nat));
    lemma_after_updates_concat(d, st, (n3 + 36) as nat, 48);
    if j < 5 && mode == 2 {
        lemma_row_number(d, st, 0, b.comp_mode_prob, a.comp_mode_prob, j);
    }
    if j < 5 && i < 2 && mode != 1 {
        lemma_rows_number(d, st, n1, b.single_ref_prob, a.single_ref_prob, j, i);
    }
    if j < 5 && mode != 0 {
        lemma_row_number(d, st, n2, b.comp_ref_prob, a.comp_ref_prob, j);
    }
    if j < 4 {
        lemma_rows_number(d, st, n3, b.y_mode_probs, a.y_mode_probs, j, i);
    }
    if i < 3 {
        lemma_rows_number(d, st, n3 + 36, b.partition_probs, a.partition_probs, j, i);
    }
}

/// Last come the updates for motion vectors: joints; for rows and then for columns
/// sign, classes, the bit of the first class and the bits of the others; then the
/// fractions, for rows and then for columns; and the finest bits where the frame has
/// them.
#[verifier::spinoff_prover]
pub proof fn lemma_vector_updates(
    d: Seq<u8>,
    h: NewFrameHeader,
    b: CompressedHeaderProbs,
    c: CompressedHeader,
    i: int,
    k: int,
)
    requires
        compressed_header_at(d, h, b, c),
        !h.frame_is_intra,
        0 <= i < 10,
        0 <= k < 3,
    ensures
        ({
            let st = super::mv_state(d, h);
            let a = *c.probs;
            &&& takes_vector(d, st, k, b.mv_joint_probs[k], a.mv_joint_probs[k])
            &&& takes_vector(d, st, 3, b.mv_sign_prob[0], a.mv_sign_prob[0])
            &&& takes_vector(d, st, 4 + i, b.mv_class_probs[0][i], a.mv_class_probs[0][i])
            &&& takes_vector(d, st, 14, b.mv_class0_bit_prob[0], a.mv_class0_bit_prob[0])
            &&& takes_vector(d, st, 15 + i, b.mv_bits_prob[0][i], a.mv_bits_prob[0][i])
            &&& takes_vector(d, st, 25, b.mv_sign_prob[1], a.mv_sign_prob[1])
            &&& takes_vector(d, st, 26 + i, b.mv_class_probs[1][i], a.mv_class_probs[1][i])
            &&& takes_vector(d, st, 36, b.mv_class0_bit_prob[1], a.mv_class0_bit_prob[1])
            &&& takes_vector(d, st, 37 + i, b.mv_bits_prob[1][i], a.mv_bits_prob[1][i])
            &&& takes_vector(
                d,
                st,
                47 + k,
                b.mv_class0_fr_probs[0][0][k],
                a.mv_class0_fr_probs[0][0][k],
            )
            &&& takes_vector(
                d,
                st,
                50 + k,
                b.mv_class0_fr_probs[0][1][k],
                a.mv_class0_fr_probs[0][1][k],
            )
            &&& takes_vector(d, st, 53 + k, b.mv_fr_probs[0][k], a.mv_fr_probs[0][k])
            &&& takes_vector(
                d,
                st,
                56 + k,
                b.mv_class0_fr_probs[1][0][k],
                a.mv_class0_fr_probs[1][0][k],
            )
            &&& takes_vector(
                d,
                st,
                59 + k,
                b.mv_class0_fr_probs[1][1][k],
                a.mv_class0_fr_probs[1][1][k],
            )
            &&& takes_vector(d, st, 62 + k, b.mv_fr_probs[1][k], a.mv_fr_probs[1][k])
            &&& h.allow_high_precision_mv ==> {
                &&& takes_vector(d, st, 65, b.mv_class0_hp_prob[0], a.mv_class0_hp_prob[0])
                &&& takes_vector(d, st, 66, b.mv_hp_prob[0], a.mv_hp_prob[0])
                &&& takes_vector(d, st, 67, b.mv_class0_hp_prob[1], a.mv_class0_hp_prob[1])
                &&& takes_vector(d, st, 68, b.mv_hp_prob[1], a.mv_hp_prob[1])
            }
            &&& !h.allow_high_precision_mv ==> forall|j: int|
                0 <= j < 2 ==> #[trigger] a.mv_hp_prob[j] == b.mv_hp_prob[j]
                    && a.mv_class0_hp_prob[j] == b.mv_class0_hp_prob[j]
        }),
{
    let a = *c.probs;
    lemma_vector_numbers(d, super::mv_state(d, h), h.allow_high_precision_mv, b, a, i, k);
}

#[verifier::spinoff_prover]
proof fn lemma_vector_numbers(
    d: Seq<u8>,
    st: BoolState,
    hp: bool,
    b: CompressedHeaderProbs,
    a: CompressedHeaderProbs,
    i: int,
    k: int,
)
    requires
        super::mv_tables_updated(d, st, hp, b, a),
        0 <= i < 10,
        0 <= k < 3,
    ensures
        ({
            &&& takes_vector(d, st, k, b.mv_joint_probs[k], a.mv_joint_probs[k])
            &&& takes_vector(d, st, 3, b.mv_sign_prob[0], a.mv_sign_prob[0])
            &&& takes_vector(d, st, 4 + i, b.mv_class_probs[0][i], a.mv_class_probs[0][i])
            &&& takes_vector(d, st, 14, b.mv_class0_bit_prob[0], a.mv_class0_bit_prob[0])
            &&& takes_vector(d, st, 15 + i, b.mv_bits_prob[0][i], a.mv_bits_prob[0][i])
            &&& takes_vector(d, st, 25, b.mv_sign_prob[1], a.mv_sign_prob[1])
            &&& takes_vector(d, st, 26 + i, b.mv_class_probs[1][i], a.mv_class_probs[1][i])
            &&& takes_vector(d, st, 36, b.mv_class0_bit_prob[1], a.mv_class0_bit_prob[1])
            &&& takes_vector(d, st, 37 + i, b.mv_bits_prob[1][i], a.mv_bits_prob[1][i])
            &&& takes_vector(
                d,
                st,
                47 + k,
                b.mv_class0_fr_probs[0][0][k],
                a.mv_class0_fr_probs[0][0][k],
            )
            &&& takes_vector(
                d,
                st,
                50 + k,
                b.mv_class0_fr_probs[0][1][k],
                a.mv_class0_fr_probs[0][1][k],
            )
            &&& takes_vector(d, st, 53 + k, b.mv_fr_probs[0][k], a.mv_fr_probs[0][k])
            &&& takes_vector(
                d,
                st,
                56 + k,
                b.mv_class0_fr_probs[1][0][k],
                a.mv_class0_fr_probs[1][0][k],
            )
            &&& takes_vector(
                d,
                st,
                59 + k,
                b.mv_class0_fr_probs[1][1][k],
                a.mv_class0_fr_probs[1][1][k],
            )
            &&& takes_vector(d, st, 62 + k, b.mv_fr_probs[1][k], a.mv_fr_probs[1][k])
            &&& hp ==> {
                &&& takes_vector(d, st, 65, b.mv_class0_hp_prob[0], a.mv_class0_hp_prob[0])
                &&& takes_vector(d, st, 66, b.mv_hp_prob[0], a.mv_hp_prob[0])
                &&& takes_vector(d, st, 67, b.mv_class0_hp_prob[1], a.mv_class0_hp_prob[1])
                &&& takes_vector(d, st, 68, b.mv_hp_prob[1], a.mv_hp_prob[1])
            }
            &&& !hp ==> forall|j: int|
                0 <= j < 2 ==> #[trigger] a.mv_hp_prob[j] == b.mv_hp_prob[j]
                    && a.mv_class0_hp_prob[j] == b.mv_class0_hp_prob[j]
        }),
{
    assert forall|j: int| !hp && 0 <= j < 2 implies #[trigger] a.mv_hp_prob[j] == b.mv_hp_prob[j]
        && a.mv_class0_hp_prob[j] == b.mv_class0_hp_prob[j] by {
        assert(a.mv_class0_hp_prob[j] == b.mv_class0_hp_prob[j]);
    }
}

} // verus!
