//! Adaptation without observations: every table stays as it was.

use vstd::prelude::*;
use crate::compressed_header::CompressedHeaderProbs;
use crate::prob_tables::{
    CoefProbs, BINARY_TREE, COUNT_SAT, INTERP_FILTER_TREE, INTER_MODE_TREE, INTRA_MODE_TREE,
    MAX_UPDATE_FACTOR, MV_CLASS_TREE, MV_FR_TREE, MV_JOINT_TREE, PARTITION_TREE, SMALL_TOKEN_TREE,
    SWITCHABLE, TX_MODE_SELECT, TX_SIZE_16_TREE, TX_SIZE_32_TREE, TX_SIZE_8_TREE,
};
use super::{
    adapted_coef_row, adapted_flag, adapted_tree, branch_count, coefs_adapted, counts_sum,
    counts_zero, flags_adapted, lemma_merged_prob_range, lemma_ordered_tree_fits, lemma_trees_ordered, merged_tree,
    noncoefs_adapted, sum1, sum2, sum3, sum4, sum5, tree_fits, tree_ordered, trees_adapted, zero1,
    zero2, zero3, zero4, zero5, Counts, COEF_COUNT_SAT,
};

verus! {

/// All counters of a row are 0.
pub open spec fn row_zero(counts: Seq<u32>) -> bool {
    forall|i: int| 0 <= i < counts.len() ==> #[trigger] counts[i] == 0
}

/// Nothing was counted below an entry of a tree.
proof fn lemma_branch_zero(tree: Seq<i32>, counts: Seq<u32>, k: int, np: int, depth: nat)
    requires
        row_zero(counts),
        tree[k] > -counts.len(),
        tree[k] > 0 ==> tree_fits(tree, tree[k] as int, np, counts.len() as int, depth),
    ensures
        branch_count(tree, counts, k, depth) == 0,
    decreases depth,
{
    let s = tree[k];
    if s <= 0 {
        assert(counts[-s] == 0);
    } else if depth > 0 {
        let d = (depth - 1) as nat;
        assert(tree[s as int] > -counts.len() && tree[s + 1] > -counts.len());
        lemma_branch_zero(tree, counts, s as int, np, d);
        lemma_branch_zero(tree, counts, s + 1, np, d);
    }
}

/// A tree of which nothing was counted keeps its probabilities.
pub proof fn lemma_uncounted_tree_unchanged(
    tree: Seq<i32>,
    i: int,
    probs: Seq<u8>,
    counts: Seq<u32>,
    count_sat: int,
    max_update_factor: int,
    depth: nat,
)
    requires
        tree_fits(tree, i, probs.len() as int, counts.len() as int, depth),
        row_zero(counts),
        0 < count_sat,
        0 <= max_update_factor <= 256,
    ensures
        merged_tree(tree, i, probs, counts, count_sat, max_update_factor, depth) == probs,
    decreases depth,
{
    let d = (depth - 1) as nat;
    let np = probs.len() as int;
    assert(tree[i] > -counts.len() && tree[i + 1] > -counts.len());
    if tree[i] > 0 {
        lemma_uncounted_tree_unchanged(
            tree,
            tree[i] as int,
            probs,
            counts,
            count_sat,
            max_update_factor,
            d,
        );
    }
    if tree[i + 1] > 0 {
        lemma_uncounted_tree_unchanged(
            tree,
            tree[i + 1] as int,
            probs,
            counts,
            count_sat,
            max_update_factor,
            d,
        );
    }
    lemma_branch_zero(tree, counts, i, np, d);
    lemma_branch_zero(tree, counts, i + 1, np, d);
    lemma_merged_prob_range(probs[i / 2], 0, 0, count_sat, max_update_factor);
    assert(probs.update(i / 2, probs[i / 2]) =~= probs);
}

proof fn lemma_row_unchanged(tree: Seq<i32>, probs: Seq<u8>, counts: Seq<u32>)
    requires
        tree_ordered(tree, probs.len() as int, counts.len() as int),
        tree.len() >= 2,
        row_zero(counts),
    ensures
        adapted_tree(tree, probs, counts) == probs,
{
    let depth = (tree.len() / 2) as nat;
    lemma_ordered_tree_fits(tree, 0, probs.len() as int, counts.len() as int, depth);
    lemma_uncounted_tree_unchanged(
        tree,
        0,
        probs,
        counts,
        COUNT_SAT as int,
        MAX_UPDATE_FACTOR as int,
        depth,
    );
}

proof fn lemma_rows_unchanged<const N: usize, const C: usize, const M: usize>(
    tree: Seq<i32>,
    before: [[u8; N]; M],
    counts: [[u32; C]; M],
    after: [[u8; N]; M],
)
    requires
        tree_ordered(tree, N as int, C as int),
        tree.len() >= 2,
        zero2(counts),
        trees_adapted(tree, before, counts, after),
    ensures
        after == before,
{
    assert forall|j: int| 0 <= j < M implies after[j] == before[j] by {
        let row = counts[j];
        assert forall|i: int| 0 <= i < C implies #[trigger] row@[i] == 0 by {
            assert(zero1(counts[j]));
            assert(row[i] == 0);
        }
        lemma_row_unchanged(tree, before[j]@, row@);
        assert(after[j]@ =~= before[j]@);
        assert(after[j] =~= before[j]);
    }
    assert(after =~= before);
}

proof fn lemma_flags_unchanged<const M: usize>(
    before: [u8; M],
    counts: [[u32; 2]; M],
    after: [u8; M],
)
    requires
        zero2(counts),
        flags_adapted(before, counts, after),
    ensures
        after == before,
{
    assert forall|j: int| 0 <= j < M implies after[j] == before[j] by {
        let pair = counts[j];
        assert(zero1(pair));
        assert(pair[0] == 0 && pair[1] == 0);
        lemma_merged_prob_range(
            before[j],
            0,
            0,
            COUNT_SAT as int,
            MAX_UPDATE_FACTOR as int,
        );
        assert(after[j] == adapted_flag(before[j], counts[j]));
    }
    assert(after =~= before);
}

/// Where nothing was counted, adaptation leaves every table that is not of
/// coefficients as it was.
#[verifier::spinoff_prover]
#[verifier::rlimit(40)]
pub proof fn lemma_uncounted_tables_unchanged(
    b: CompressedHeaderProbs,
    c: Counts,
    interpolation_filter: u8,
    tx_mode: u8,
    hp: bool,
    a: CompressedHeaderProbs,
)
    requires
        counts_zero(c),
        noncoefs_adapted(b, c, interpolation_filter, tx_mode, hp, a),
    ensures
        a == b,
{
    lemma_trees_ordered();
    lemma_flags_unchanged(b.is_inter_prob, c.is_inter, a.is_inter_prob);
    lemma_flags_unchanged(b.comp_mode_prob, c.comp_mode, a.comp_mode_prob);
    lemma_flags_unchanged(b.comp_ref_prob, c.comp_ref, a.comp_ref_prob);
    assert forall|i: int| 0 <= i < 5 implies a.single_ref_prob[i] == b.single_ref_prob[i] by {
        let row = c.single_ref[i];
        assert(flags_adapted(b.single_ref_prob[i], row, a.single_ref_prob[i]));
        lemma_flags_unchanged(b.single_ref_prob[i], row, a.single_ref_prob[i]);
    }
    assert(a.single_ref_prob =~= b.single_ref_prob);
    lemma_rows_unchanged(
        INTER_MODE_TREE@,
        b.inter_mode_probs,
        c.inter_mode,
        a.inter_mode_probs,
    );
    lemma_rows_unchanged(
        INTRA_MODE_TREE@,
        b.y_mode_probs,
        c.intra_mode,
        a.y_mode_probs,
    );
    lemma_rows_unchanged(
        INTRA_MODE_TREE@,
        b.uv_mode_probs,
        c.uv_mode,
        a.uv_mode_probs,
    );
    lemma_rows_unchanged(
        PARTITION_TREE@,
        b.partition_probs,
        c.partition,
        a.partition_probs,
    );
    lemma_flags_unchanged(b.skip_prob, c.skip, a.skip_prob);
    if interpolation_filter == SWITCHABLE {
        lemma_rows_unchanged(
            INTERP_FILTER_TREE@,
            b.interp_filter_probs,
            c.interp_filter,
            a.interp_filter_probs,
        );
    }
    lemma_uncounted_sizes(b, c, tx_mode, interpolation_filter, hp, a);
    lemma_uncounted_vectors(b, c, tx_mode, interpolation_filter, hp, a);
}

#[verifier::spinoff_prover]
proof fn lemma_uncounted_sizes(
    b: CompressedHeaderProbs,
    c: Counts,
    tx_mode: u8,
    interpolation_filter: u8,
    hp: bool,
    a: CompressedHeaderProbs,
)
    requires
        counts_zero(c),
        noncoefs_adapted(b, c, interpolation_filter, tx_mode, hp, a),
    ensures
        a.tx_probs == b.tx_probs,
{
    lemma_trees_ordered();
    if tx_mode == TX_MODE_SELECT {
        let c1 = c.tx_size[1];
        let c2 = c.tx_size[2];
        let c3 = c.tx_size[3];
        lemma_rows_unchanged(
            TX_SIZE_8_TREE@,
            b.tx_probs[1],
            c1,
            a.tx_probs[1],
        );
        lemma_rows_unchanged(
            TX_SIZE_16_TREE@,
            b.tx_probs[2],
            c2,
            a.tx_probs[2],
        );
        lemma_rows_unchanged(
            TX_SIZE_32_TREE@,
            b.tx_probs[3],
            c3,
            a.tx_probs[3],
        );
        assert forall|i: int| 0 <= i < 4 implies a.tx_probs[i] == b.tx_probs[i] by {
            assert(i == 0 || i == 1 || i == 2 || i == 3);
        }
        assert(a.tx_probs =~= b.tx_probs);
    }
}

#[verifier::spinoff_prover]
proof fn lemma_uncounted_vectors(
    b: CompressedHeaderProbs,
    c: Counts,
    tx_mode: u8,
    interpolation_filter: u8,
    hp: bool,
    a: CompressedHeaderProbs,
)
    requires
        counts_zero(c),
        noncoefs_adapted(b, c, interpolation_filter, tx_mode, hp, a),
    ensures
        a.mv_joint_probs == b.mv_joint_probs,
        a.mv_sign_prob == b.mv_sign_prob,
        a.mv_class_probs == b.mv_class_probs,
        a.mv_class0_bit_prob == b.mv_class0_bit_prob,
        a.mv_bits_prob == b.mv_bits_prob,
        a.mv_class0_fr_probs == b.mv_class0_fr_probs,
        a.mv_fr_probs == b.mv_fr_probs,
        a.mv_class0_hp_prob == b.mv_class0_hp_prob,
        a.mv_hp_prob == b.mv_hp_prob,
{
    lemma_trees_ordered();
    let joint = c.mv_joint;
    assert forall|i: int| 0 <= i < 4 implies #[trigger] joint@[i] == 0 by {
        assert(c.mv_joint[i] == 0);
    }
    lemma_row_unchanged(MV_JOINT_TREE@, b.mv_joint_probs@, joint@);
    assert(a.mv_joint_probs =~= b.mv_joint_probs);
    lemma_flags_unchanged(b.mv_sign_prob, c.mv_sign, a.mv_sign_prob);
    lemma_rows_unchanged(
        MV_CLASS_TREE@,
        b.mv_class_probs,
        c.mv_class,
        a.mv_class_probs,
    );
    lemma_flags_unchanged(b.mv_class0_bit_prob, c.mv_class0_bit, a.mv_class0_bit_prob);
    assert forall|i: int| 0 <= i < 2 implies a.mv_bits_prob[i] == b.mv_bits_prob[i]
        && a.mv_class0_fr_probs[i] == b.mv_class0_fr_probs[i] by {
        let bits = c.mv_bits[i];
        lemma_flags_unchanged(b.mv_bits_prob[i], bits, a.mv_bits_prob[i]);
        let fr = c.mv_class0_fr[i];
        lemma_rows_unchanged(
            MV_FR_TREE@,
            b.mv_class0_fr_probs[i],
            fr,
            a.mv_class0_fr_probs[i],
        );
    }
    assert(a.mv_bits_prob =~= b.mv_bits_prob);
    assert(a.mv_class0_fr_probs =~= b.mv_class0_fr_probs);
    lemma_rows_unchanged(MV_FR_TREE@, b.mv_fr_probs, c.mv_fr, a.mv_fr_probs);
    if hp {
        lemma_flags_unchanged(b.mv_class0_hp_prob, c.mv_class0_hp, a.mv_class0_hp_prob);
        lemma_flags_unchanged(b.mv_hp_prob, c.mv_hp, a.mv_hp_prob);
    }
}

/// Where nothing was counted, adaptation leaves the coefficient probabilities as
/// they were.
#[verifier::spinoff_prover]
pub proof fn lemma_uncounted_coefs_unchanged(
    before: CoefProbs,
    c: Counts,
    update_factor: int,
    after: CoefProbs,
)
    requires
        counts_zero(c),
        0 <= update_factor <= 256,
        coefs_adapted(before, c, update_factor, after),
    ensures
        forall|t: int, i: int, j: int, k: int, l: int, m: int|
            0 <= t < 4 && 0 <= i < 2 && 0 <= j < 2 && 0 <= k < 6 && 0 <= l < 6 && 0 <= m < 3
                ==> #[trigger] after[t][i][j][k][l][m] == before[t][i][j][k][l][m],
{
    assert forall|t: int, i: int, j: int, k: int, l: int, m: int|
        0 <= t < 4 && 0 <= i < 2 && 0 <= j < 2 && 0 <= k < 6 && 0 <= l < 6 && 0 <= m
            < 3 implies #[trigger] after[t][i][j][k][l][m] == before[t][i][j][k][l][m] by {
        let row = before[t][i][j][k][l];
        let token = c.token[t][i][j][k][l];
        let more = c.more_coefs[t][i][j][k][l];
        assert(zero5(c.token[t]) && zero5(c.more_coefs[t]));
        assert(zero4(c.token[t][i]) && zero4(c.more_coefs[t][i]));
        assert(zero3(c.token[t][i][j]) && zero3(c.more_coefs[t][i][j]));
        assert(zero2(c.token[t][i][j][k]) && zero2(c.more_coefs[t][i][j][k]));
        assert(zero1(token) && zero1(more));
        assert forall|n: int| 0 <= n < 3 implies #[trigger] token@[n] == 0 by {
            assert(token[n] == 0);
        }
        assert forall|n: int| 0 <= n < 2 implies #[trigger] more@[n] == 0 by {
            assert(more[n] == 0);
        }
        lemma_coef_row_unchanged(row@, token@, more@, update_factor);
        let bands = after[t][i][j];
        assert(bands[k][l]@ == row@);
    }
}

proof fn lemma_coef_row_unchanged(
    probs: Seq<u8>,
    token: Seq<u32>,
    more_coefs: Seq<u32>,
    update_factor: int,
)
    requires
        probs.len() == 3,
        token.len() == 3,
        more_coefs.len() == 2,
        row_zero(token),
        row_zero(more_coefs),
        0 <= update_factor <= 256,
    ensures
        adapted_coef_row(probs, token, more_coefs, update_factor) == probs,
{
    reveal_with_fuel(tree_fits, 3);
    assert(tree_fits(SMALL_TOKEN_TREE@, 2, 3, 3, 2));
    assert(tree_fits(BINARY_TREE@, 0, 3, 2, 1));
    lemma_uncounted_tree_unchanged(
        SMALL_TOKEN_TREE@,
        2,
        probs,
        token,
        COEF_COUNT_SAT as int,
        update_factor,
        2,
    );
    lemma_uncounted_tree_unchanged(
        BINARY_TREE@,
        0,
        probs,
        more_coefs,
        COEF_COUNT_SAT as int,
        update_factor,
        1,
    );
}

/// Two counters added up, modulo `2^32`.
pub open spec fn added(x: u32, y: u32, s: u32) -> bool {
    s == x + y || s == x + y - 0x1_0000_0000
}

/// Every counter of a sum is the sum of two counters.
pub proof fn lemma_counters_add_up(a: Counts, b: Counts, s: Counts, i: int, j: int, k: int)
    requires
        counts_sum(a, b, s),
        0 <= i < 16,
        0 <= j < 11,
        0 <= k < 4,
    ensures
        i < 4 ==> added(a.mv_joint[i], b.mv_joint[i], s.mv_joint[i]),
        i < 4 && j < 10 ==> added(a.intra_mode[i][j], b.intra_mode[i][j], s.intra_mode[i][j]),
        i < 10 && j < 10 ==> added(a.uv_mode[i][j], b.uv_mode[i][j], s.uv_mode[i][j]),
        j < 4 ==> added(a.partition[i][j], b.partition[i][j], s.partition[i][j]),
        i < 4 && j < 3 ==> added(
            a.interp_filter[i][j],
            b.interp_filter[i][j],
            s.interp_filter[i][j],
        ),
        i < 7 && j < 4 ==> added(a.inter_mode[i][j], b.inter_mode[i][j], s.inter_mode[i][j]),
        i < 4 && j < 2 ==> added(a.is_inter[i][j], b.is_inter[i][j], s.is_inter[i][j]),
        i < 5 && j < 2 ==> added(a.comp_mode[i][j], b.comp_mode[i][j], s.comp_mode[i][j]),
        i < 5 && j < 2 ==> added(a.comp_ref[i][j], b.comp_ref[i][j], s.comp_ref[i][j]),
        i < 3 && j < 2 ==> added(a.skip[i][j], b.skip[i][j], s.skip[i][j]),
        i < 2 && j < 2 ==> added(a.mv_sign[i][j], b.mv_sign[i][j], s.mv_sign[i][j]),
        i < 2 ==> added(a.mv_class[i][j], b.mv_class[i][j], s.mv_class[i][j]),
        i < 2 && j < 2 ==> added(
            a.mv_class0_bit[i][j],
            b.mv_class0_bit[i][j],
            s.mv_class0_bit[i][j],
        ),
        i < 2 && j < 2 ==> added(a.mv_class0_hp[i][j], b.mv_class0_hp[i][j], s.mv_class0_hp[i][j]),
        i < 2 && j < 4 ==> added(a.mv_fr[i][j], b.mv_fr[i][j], s.mv_fr[i][j]),
        i < 2 && j < 2 ==> added(a.mv_hp[i][j], b.mv_hp[i][j], s.mv_hp[i][j]),
        i < 4 && j < 2 ==> added(a.tx_size[i][j][k], b.tx_size[i][j][k], s.tx_size[i][j][k]),
        i < 5 && j < 2 && k < 2 ==> added(
            a.single_ref[i][j][k],
            b.single_ref[i][j][k],
            s.single_ref[i][j][k],
        ),
        i < 2 && j < 2 ==> added(
            a.mv_class0_fr[i][j][k],
            b.mv_class0_fr[i][j][k],
            s.mv_class0_fr[i][j][k],
        ),
        i < 2 && j < 10 && k < 2 ==> added(
            a.mv_bits[i][j][k],
            b.mv_bits[i][j][k],
            s.mv_bits[i][j][k],
        ),
{
    if i < 4 {
        let t = s.mv_joint[i];
    }
    if i < 4 && j < 10 {
        assert(sum1(a.intra_mode[i], b.intra_mode[i], s.intra_mode[i]));
        let t = s.intra_mode[i][j];
    }
    if i < 10 && j < 10 {
        assert(sum1(a.uv_mode[i], b.uv_mode[i], s.uv_mode[i]));
        let t = s.uv_mode[i][j];
    }
    if j < 4 {
        assert(sum1(a.partition[i], b.partition[i], s.partition[i]));
        let t = s.partition[i][j];
    }
    if i < 4 && j < 3 {
        assert(sum1(a.interp_filter[i], b.interp_filter[i], s.interp_filter[i]));
        let t = s.interp_filter[i][j];
    }
    if i < 7 && j < 4 {
        assert(sum1(a.inter_mode[i], b.inter_mode[i], s.inter_mode[i]));
        let t = s.inter_mode[i][j];
    }
    if i < 4 && j < 2 {
        assert(sum1(a.is_inter[i], b.is_inter[i], s.is_inter[i]));
        let t = s.is_inter[i][j];
    }
    if i < 5 && j < 2 {
        assert(sum1(a.comp_mode[i], b.comp_mode[i], s.comp_mode[i]));
        let t = s.comp_mode[i][j];
    }
    if i < 5 && j < 2 {
        assert(sum1(a.comp_ref[i], b.comp_ref[i], s.comp_ref[i]));
        let t = s.comp_ref[i][j];
    }
    if i < 3 && j < 2 {
        assert(sum1(a.skip[i], b.skip[i], s.skip[i]));
        let t = s.skip[i][j];
    }
    if i < 2 && j < 2 {
        assert(sum1(a.mv_sign[i], b.mv_sign[i], s.mv_sign[i]));
        let t = s.mv_sign[i][j];
    }
    if i < 2 {
        assert(sum1(a.mv_class[i], b.mv_class[i], s.mv_class[i]));
        let t = s.mv_class[i][j];
    }
    if i < 2 && j < 2 {
        assert(sum1(a.mv_class0_bit[i], b.mv_class0_bit[i], s.mv_class0_bit[i]));
        let t = s.mv_class0_bit[i][j];
    }
    if i < 2 && j < 2 {
        assert(sum1(a.mv_class0_hp[i], b.mv_class0_hp[i], s.mv_class0_hp[i]));
        let t = s.mv_class0_hp[i][j];
    }
    if i < 2 && j < 4 {
        assert(sum1(a.mv_fr[i], b.mv_fr[i], s.mv_fr[i]));
        let t = s.mv_fr[i][j];
    }
    if i < 2 && j < 2 {
        assert(sum1(a.mv_hp[i], b.mv_hp[i], s.mv_hp[i]));
        let t = s.mv_hp[i][j];
    }
    if i < 4 && j < 2 {
        assert(sum2(a.tx_size[i], b.tx_size[i], s.tx_size[i]));
        assert(sum1(a.tx_size[i][j], b.tx_size[i][j], s.tx_size[i][j]));
        let t = s.tx_size[i][j][k];
    }
    if i < 5 && j < 2 && k < 2 {
        assert(sum2(a.single_ref[i], b.single_ref[i], s.single_ref[i]));
        assert(sum1(a.single_ref[i][j], b.single_ref[i][j], s.single_ref[i][j]));
        let t = s.single_ref[i][j][k];
    }
    if i < 2 && j < 2 {
        assert(sum2(a.mv_class0_fr[i], b.mv_class0_fr[i], s.mv_class0_fr[i]));
        assert(sum1(a.mv_class0_fr[i][j], b.mv_class0_fr[i][j], s.mv_class0_fr[i][j]));
        let t = s.mv_class0_fr[i][j][k];
    }
    if i < 2 && j < 10 && k < 2 {
        assert(sum2(a.mv_bits[i], b.mv_bits[i], s.mv_bits[i]));
        assert(sum1(a.mv_bits[i][j], b.mv_bits[i][j], s.mv_bits[i][j]));
        let t = s.mv_bits[i][j][k];
    }
}

/// So is every counter of tokens.
pub proof fn lemma_token_counters_add_up(
    a: Counts,
    b: Counts,
    s: Counts,
    t: int,
    i: int,
    j: int,
    k: int,
    l: int,
    m: int,
)
    requires
        counts_sum(a, b, s),
        0 <= t < 4,
        0 <= i < 2,
        0 <= j < 2,
        0 <= k < 6,
        0 <= l < 6,
        0 <= m < 3,
    ensures
        added(a.token[t][i][j][k][l][m], b.token[t][i][j][k][l][m], s.token[t][i][j][k][l][m]),
        m < 2 ==> added(
            a.more_coefs[t][i][j][k][l][m],
            b.more_coefs[t][i][j][k][l][m],
            s.more_coefs[t][i][j][k][l][m],
        ),
{
    assert(sum5(a.token[t], b.token[t], s.token[t]));
    assert(sum4(a.token[t][i], b.token[t][i], s.token[t][i]));
    assert(sum3(a.token[t][i][j], b.token[t][i][j], s.token[t][i][j]));
    assert(sum2(a.token[t][i][j][k], b.token[t][i][j][k], s.token[t][i][j][k]));
    assert(sum1(a.token[t][i][j][k][l], b.token[t][i][j][k][l], s.token[t][i][j][k][l]));
    let p = s.token[t][i][j][k][l][m];
    assert(sum5(a.more_coefs[t], b.more_coefs[t], s.more_coefs[t]));
    assert(sum4(a.more_coefs[t][i], b.more_coefs[t][i], s.more_coefs[t][i]));
    assert(sum3(a.more_coefs[t][i][j], b.more_coefs[t][i][j], s.more_coefs[t][i][j]));
    assert(sum2(a.more_coefs[t][i][j][k], b.more_coefs[t][i][j][k], s.more_coefs[t][i][j][k]));
    assert(
        sum1(a.more_coefs[t][i][j][k][l], b.more_coefs[t][i][j][k][l], s.more_coefs[t][i][j][k][l])
    );
    if m < 2 {
        let q = s.more_coefs[t][i][j][k][l][m];
    }
}

} // verus!
