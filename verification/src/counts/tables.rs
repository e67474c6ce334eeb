//! What adaptation makes of each table, in terms of the symbols counted.

use vstd::prelude::*;
use crate::compressed_header::CompressedHeaderProbs;
use crate::prob_tables::{
    CoefProbs, INTERP_FILTER_TREE, INTER_MODE_TREE, INTRA_MODE_TREE, MV_CLASS_TREE, MV_FR_TREE,
    MV_JOINT_TREE, PARTITION_TREE, SWITCHABLE, TX_MODE_SELECT, TX_SIZE_16_TREE, TX_SIZE_32_TREE,
    TX_SIZE_8_TREE,
};
use super::{
    adapted_coef_row, adapted_flag, adapted_tree, bands_adapted, branch_count, coefs_adapted,
    flags_adapted, merged_prob, merged_tree, noncoefs_adapted, trees_adapted, Counts,
};

verus! {

// ---------------------------------------------------------------------------
// One probability.
// ---------------------------------------------------------------------------

/// A probability of a 0, moved towards how often a 0 was counted: by `most` parts
/// of 256 of the way after `enough` counts, and in proportion before.
pub open spec fn nudged(p: u8, zeros: int, ones: int, enough: int, most: int) -> int {
    let n = zeros + ones;
    if n == 0 {
        p as int
    } else {
        let ratio = (512 * zeros + n) / (2 * n);
        let goal = if ratio < 1 {
            1
        } else if ratio > 255 {
            255
        } else {
            ratio
        };
        let part = if n >= enough {
            most
        } else {
            most * n / enough
        };
        (256 * p + part * (goal - p) + 128) / 256
    }
}

/// A merged probability is one that is moved towards the counts.
pub proof fn lemma_merged_is_nudged(p: u8, zeros: int, ones: int, enough: int, most: int)
    requires
        0 <= zeros,
        0 <= ones,
        0 < enough,
        0 <= most <= 256,
    ensures
        merged_prob(p, zeros, ones, enough, most) == nudged(p, zeros, ones, enough, most),
        0 <= merged_prob(p, zeros, ones, enough, most) <= 255,
{
    super::lemma_merged_prob_range(p, zeros, ones, enough, most);
    let n = zeros + ones;
    if n > 0 {
        lemma_ratio(zeros, n);
        super::lemma_update_weight_range(n, enough, most);
        let w = super::update_weight(n, enough, most);
        let o = super::observed_prob(zeros, ones);
        assert(p * (256 - w) + o * w == 256 * p + w * (o - p)) by (nonlinear_arith);
    }
}

proof fn lemma_ratio(zeros: int, n: int)
    requires
        0 <= zeros <= n,
        0 < n,
    ensures
        (512 * zeros + n) / (2 * n) == (zeros * 256 + n / 2) / n,
{
    let q = (512 * zeros + n) / (2 * n);
    let r = (512 * zeros + n) % (2 * n);
    vstd::arithmetic::div_mod::lemma_fundamental_div_mod(512 * zeros + n, 2 * n);
    vstd::arithmetic::div_mod::lemma_mod_bound(512 * zeros + n, 2 * n);
    let rest = zeros * 256 + n / 2 - n * q;
    assert(512 * zeros + n == 2 * (n * q) + r) by (nonlinear_arith)
        requires
            512 * zeros + n == (2 * n) * q + r,
    ;
    assert(0 <= rest < n);
    assert(zeros * 256 + n / 2 == n * q + rest);
    assert(n * q == q * n) by (nonlinear_arith);
    vstd::arithmetic::div_mod::lemma_fundamental_div_mod_converse(
        zeros * 256 + n / 2,
        n,
        q,
        rest,
    );
}

/// Enough counts of one kind alone move a probability strictly towards it, unless
/// it is there already or next to it; counts never move one away.
pub proof fn lemma_one_sided_counts(p: u8, count: int, enough: int, most: int)
    requires
        1 <= p,
        0 < enough <= count,
        64 <= most <= 256,
    ensures
        p <= 252 ==> p < merged_prob(p, count, 0, enough, most) <= 255,
        p >= 4 ==> 1 <= merged_prob(p, 0, count, enough, most) < p,
        merged_prob(p, count, 0, enough, most) >= p,
        merged_prob(p, 0, count, enough, most) <= p,
{
    lemma_merged_is_nudged(p, count, 0, enough, most);
    lemma_merged_is_nudged(p, 0, count, enough, most);
    assert((512 * count + count) / (2 * count) == 256) by {
        assert(512 * count + count == (2 * count) * 256 + count);
        vstd::arithmetic::div_mod::lemma_fundamental_div_mod_converse(
            512 * count + count,
            2 * count,
            256,
            count,
        );
    }
    assert((512 * 0 + count) / (2 * count) == 0) by {
        vstd::arithmetic::div_mod::lemma_fundamental_div_mod_converse(
            512 * 0 + count,
            2 * count,
            0,
            count,
        );
    }
    super::lemma_merged_prob_range(p, 0, count, enough, most);
    let up = most * (255 - p);
    let down = most * (1 - p);
    assert(up >= 64 * (255 - p)) by (nonlinear_arith)
        requires
            up == most * (255 - p),
            most >= 64,
            p <= 255,
    ;
    assert(down <= 64 * (1 - p)) by (nonlinear_arith)
        requires
            down == most * (1 - p),
            most >= 64,
            p >= 1,
    ;
}

// ---------------------------------------------------------------------------
// Trees.
// ---------------------------------------------------------------------------

proof fn lemma_inter_mode_tree(p: Seq<u8>, c: Seq<u32>)
    requires
        p.len() == 3,
        c.len() == 4,
    ensures
        ({
            let a = adapted_tree(INTER_MODE_TREE@, p, c);
            &&& a.len() == 3
            &&& a[0] == nudged(p[0], c[2] as int, c[0] + c[1] + c[3], 20, 128)
            &&& a[1] == nudged(p[1], c[0] as int, c[1] + c[3], 20, 128)
            &&& a[2] == nudged(p[2], c[1] as int, c[3] as int, 20, 128)
        }),
{
    reveal_with_fuel(merged_tree, 4);
    reveal_with_fuel(branch_count, 4);
    lemma_merged_is_nudged(p[0], c[2] as int, c[0] + c[1] + c[3], 20, 128);
    lemma_merged_is_nudged(p[1], c[0] as int, c[1] + c[3], 20, 128);
    lemma_merged_is_nudged(p[2], c[1] as int, c[3] as int, 20, 128);
}

#[verifier::spinoff_prover]
#[verifier::rlimit(80)]
proof fn lemma_intra_mode_tree(p: Seq<u8>, c: Seq<u32>)
    requires
        p.len() == 9,
        c.len() == 10,
    ensures
        ({
            let a = adapted_tree(INTRA_MODE_TREE@, p, c);
            &&& a.len() == 9
            &&& a[0] == nudged(
                p[0],
                c[0] as int,
                c[1] + c[2] + c[3] + c[4] + c[5] + c[6] + c[7] + c[8] + c[9],
                20,
                128,
            )
            &&& a[1] == nudged(
                p[1],
                c[9] as int,
                c[1] + c[2] + c[3] + c[4] + c[5] + c[6] + c[7] + c[8],
                20,
                128,
            )
            &&& a[2] == nudged(
                p[2],
                c[1] as int,
                c[2] + c[3] + c[4] + c[5] + c[6] + c[7] + c[8],
                20,
                128,
            )
            &&& a[3] == nudged(p[3], c[2] + c[4] + c[5], c[3] + c[6] + c[7] + c[8], 20, 128)
            &&& a[4] == nudged(p[4], c[2] as int, c[4] + c[5], 20, 128)
            &&& a[5] == nudged(p[5], c[4] as int, c[5] as int, 20, 128)
            &&& a[6] == nudged(p[6], c[3] as int, c[6] + c[7] + c[8], 20, 128)
            &&& a[7] == nudged(p[7], c[8] as int, c[6] + c[7], 20, 128)
            &&& a[8] == nudged(p[8], c[6] as int, c[7] as int, 20, 128)
        }),
{
    reveal_with_fuel(merged_tree, 10);
    reveal_with_fuel(branch_count, 10);
    lemma_merged_is_nudged(
        p[0],
        c[0] as int,
        c[1] + c[2] + c[3] + c[4] + c[5] + c[6] + c[7] + c[8] + c[9],
        20,
        128,
    );
    lemma_merged_is_nudged(
        p[1],
        c[9] as int,
        c[1] + c[2] + c[3] + c[4] + c[5] + c[6] + c[7] + c[8],
        20,
        128,
    );
    lemma_merged_is_nudged(
        p[2],
        c[1] as int,
        c[2] + c[3] + c[4] + c[5] + c[6] + c[7] + c[8],
        20,
        128,
    );
    lemma_merged_is_nudged(p[3], c[2] + c[4] + c[5], c[3] + c[6] + c[7] + c[8], 20, 128);
    lemma_merged_is_nudged(p[4], c[2] as int, c[4] + c[5], 20, 128);
    lemma_merged_is_nudged(p[5], c[4] as int, c[5] as int, 20, 128);
    lemma_merged_is_nudged(p[6], c[3] as int, c[6] + c[7] + c[8], 20, 128);
    lemma_merged_is_nudged(p[7], c[8] as int, c[6] + c[7], 20, 128);
    lemma_merged_is_nudged(p[8], c[6] as int, c[7] as int, 20, 128);
}

proof fn lemma_partition_tree(p: Seq<u8>, c: Seq<u32>)
    requires
        p.len() == 3,
        c.len() == 4,
    ensures
        ({
            let a = adapted_tree(PARTITION_TREE@, p, c);
            &&& a.len() == 3
            &&& a[0] == nudged(p[0], c[0] as int, c[1] + c[2] + c[3], 20, 128)
            &&& a[1] == nudged(p[1], c[1] as int, c[2] + c[3], 20, 128)
            &&& a[2] == nudged(p[2], c[2] as int, c[3] as int, 20, 128)
        }),
{
    reveal_with_fuel(merged_tree, 4);
    reveal_with_fuel(branch_count, 4);
    lemma_merged_is_nudged(p[0], c[0] as int, c[1] + c[2] + c[3], 20, 128);
    lemma_merged_is_nudged(p[1], c[1] as int, c[2] + c[3], 20, 128);
    lemma_merged_is_nudged(p[2], c[2] as int, c[3] as int, 20, 128);
}

proof fn lemma_interp_filter_tree(p: Seq<u8>, c: Seq<u32>)
    requires
        p.len() == 2,
        c.len() == 3,
    ensures
        ({
            let a = adapted_tree(INTERP_FILTER_TREE@, p, c);
            &&& a.len() == 2
            &&& a[0] == nudged(p[0], c[0] as int, c[1] + c[2], 20, 128)
            &&& a[1] == nudged(p[1], c[1] as int, c[2] as int, 20, 128)
        }),
{
    reveal_with_fuel(merged_tree, 3);
    reveal_with_fuel(branch_count, 3);
    lemma_merged_is_nudged(p[0], c[0] as int, c[1] + c[2], 20, 128);
    lemma_merged_is_nudged(p[1], c[1] as int, c[2] as int, 20, 128);
}

proof fn lemma_tx_size_8_tree(p: Seq<u8>, c: Seq<u32>)
    requires
        p.len() == 3,
        c.len() == 4,
    ensures
        ({
            let a = adapted_tree(TX_SIZE_8_TREE@, p, c);
            &&& a.len() == 3
            &&& a[0] == nudged(p[0], c[0] as int, c[1] as int, 20, 128)
            &&& a[1] == p[1]
            &&& a[2] == p[2]
        }),
{
    reveal_with_fuel(merged_tree, 2);
    reveal_with_fuel(branch_count, 2);
    lemma_merged_is_nudged(p[0], c[0] as int, c[1] as int, 20, 128);
}

proof fn lemma_tx_size_16_tree(p: Seq<u8>, c: Seq<u32>)
    requires
        p.len() == 3,
        c.len() == 4,
    ensures
        ({
            let a = adapted_tree(TX_SIZE_16_TREE@, p, c);
            &&& a.len() == 3
            &&& a[0] == nudged(p[0], c[0] as int, c[1] + c[2], 20, 128)
            &&& a[1] == nudged(p[1], c[1] as int, c[2] as int, 20, 128)
            &&& a[2] == p[2]
        }),
{
    reveal_with_fuel(merged_tree, 3);
    reveal_with_fuel(branch_count, 3);
    lemma_merged_is_nudged(p[0], c[0] as int, c[1] + c[2], 20, 128);
    lemma_merged_is_nudged(p[1], c[1] as int, c[2] as int, 20, 128);
}

proof fn lemma_tx_size_32_tree(p: Seq<u8>, c: Seq<u32>)
    requires
        p.len() == 3,
        c.len() == 4,
    ensures
        ({
            let a = adapted_tree(TX_SIZE_32_TREE@, p, c);
            &&& a.len() == 3
            &&& a[0] == nudged(p[0], c[0] as int, c[1] + c[2] + c[3], 20, 128)
            &&& a[1] == nudged(p[1], c[1] as int, c[2] + c[3], 20, 128)
            &&& a[2] == nudged(p[2], c[2] as int, c[3] as int, 20, 128)
        }),
{
    reveal_with_fuel(merged_tree, 4);
    reveal_with_fuel(branch_count, 4);
    lemma_merged_is_nudged(p[0], c[0] as int, c[1] + c[2] + c[3], 20, 128);
    lemma_merged_is_nudged(p[1], c[1] as int, c[2] + c[3], 20, 128);
    lemma_merged_is_nudged(p[2], c[2] as int, c[3] as int, 20, 128);
}

proof fn lemma_mv_joint_tree(p: Seq<u8>, c: Seq<u32>)
    requires
        p.len() == 3,
        c.len() == 4,
    ensures
        ({
            let a = adapted_tree(MV_JOINT_TREE@, p, c);
            &&& a.len() == 3
            &&& a[0] == nudged(p[0], c[0] as int, c[1] + c[2] + c[3], 20, 128)
            &&& a[1] == nudged(p[1], c[1] as int, c[2] + c[3], 20, 128)
            &&& a[2] == nudged(p[2], c[2] as int, c[3] as int, 20, 128)
        }),
{
    reveal_with_fuel(merged_tree, 4);
    reveal_with_fuel(branch_count, 4);
    lemma_merged_is_nudged(p[0], c[0] as int, c[1] + c[2] + c[3], 20, 128);
    lemma_merged_is_nudged(p[1], c[1] as int, c[2] + c[3], 20, 128);
    lemma_merged_is_nudged(p[2], c[2] as int, c[3] as int, 20, 128);
}

#[verifier::spinoff_prover]
#[verifier::rlimit(80)]
proof fn lemma_mv_class_tree(p: Seq<u8>, c: Seq<u32>)
    requires
        p.len() == 10,
        c.len() == 11,
    ensures
        ({
            let a = adapted_tree(MV_CLASS_TREE@, p, c);
            &&& a.len() == 10
            &&& a[0] == nudged(
                p[0],
                c[0] as int,
                c[1] + c[2] + c[3] + c[4] + c[5] + c[6] + c[7] + c[8] + c[9] + c[10],
                20,
                128,
            )
            &&& a[1] == nudged(
                p[1],
                c[1] as int,
                c[2] + c[3] + c[4] + c[5] + c[6] + c[7] + c[8] + c[9] + c[10],
                20,
                128,
            )
            &&& a[2] == nudged(
                p[2],
                c[2] + c[3],
                c[4] + c[5] + c[6] + c[7] + c[8] + c[9] + c[10],
                20,
                128,
            )
            &&& a[3] == nudged(p[3], c[2] as int, c[3] as int, 20, 128)
            &&& a[4] == nudged(p[4], c[4] + c[5], c[6] + c[7] + c[8] + c[9] + c[10], 20, 128)
            &&& a[5] == nudged(p[5], c[4] as int, c[5] as int, 20, 128)
            &&& a[6] == nudged(p[6], c[6] as int, c[7] + c[8] + c[9] + c[10], 20, 128)
            &&& a[7] == nudged(p[7], c[7] + c[8], c[9] + c[10], 20, 128)
            &&& a[8] == nudged(p[8], c[7] as int, c[8] as int, 20, 128)
            &&& a[9] == nudged(p[9], c[9] as int, c[10] as int, 20, 128)
        }),
{
    reveal_with_fuel(merged_tree, 11);
    reveal_with_fuel(branch_count, 11);
    lemma_merged_is_nudged(
        p[0],
        c[0] as int,
        c[1] + c[2] + c[3] + c[4] + c[5] + c[6] + c[7] + c[8] + c[9] + c[10],
        20,
        128,
    );
    lemma_merged_is_nudged(
        p[1],
        c[1] as int,
        c[2] + c[3] + c[4] + c[5] + c[6] + c[7] + c[8] + c[9] + c[10],
        20,
        128,
    );
    lemma_merged_is_nudged(
        p[2],
        c[2] + c[3],
        c[4] + c[5] + c[6] + c[7] + c[8] + c[9] + c[10],
        20,
        128,
    );
    lemma_merged_is_nudged(p[3], c[2] as int, c[3] as int, 20, 128);
    lemma_merged_is_nudged(p[4], c[4] + c[5], c[6] + c[7] + c[8] + c[9] + c[10], 20, 128);
    lemma_merged_is_nudged(p[5], c[4] as int, c[5] as int, 20, 128);
    lemma_merged_is_nudged(p[6], c[6] as int, c[7] + c[8] + c[9] + c[10], 20, 128);
    lemma_merged_is_nudged(p[7], c[7] + c[8], c[9] + c[10], 20, 128);
    lemma_merged_is_nudged(p[8], c[7] as int, c[8] as int, 20, 128);
    lemma_merged_is_nudged(p[9], c[9] as int, c[10] as int, 20, 128);
}

proof fn lemma_mv_fr_tree(p: Seq<u8>, c: Seq<u32>)
    requires
        p.len() == 3,
        c.len() == 4,
    ensures
        ({
            let a = adapted_tree(MV_FR_TREE@, p, c);
            &&& a.len() == 3
            &&& a[0] == nudged(p[0], c[0] as int, c[1] + c[2] + c[3], 20, 128)
            &&& a[1] == nudged(p[1], c[1] as int, c[2] + c[3], 20, 128)
            &&& a[2] == nudged(p[2], c[2] as int, c[3] as int, 20, 128)
        }),
{
    reveal_with_fuel(merged_tree, 4);
    reveal_with_fuel(branch_count, 4);
    lemma_merged_is_nudged(p[0], c[0] as int, c[1] + c[2] + c[3], 20, 128);
    lemma_merged_is_nudged(p[1], c[1] as int, c[2] + c[3], 20, 128);
    lemma_merged_is_nudged(p[2], c[2] as int, c[3] as int, 20, 128);
}

proof fn lemma_flag(p: u8, c: [u32; 2])
    ensures
        adapted_flag(p, c) == nudged(p, c[0] as int, c[1] as int, 20, 128),
{
    lemma_merged_is_nudged(p, c[0] as int, c[1] as int, 20, 128);
}

proof fn lemma_flag_row<const M: usize>(before: [u8; M], c: [[u32; 2]; M], after: [u8; M], j: int)
    requires
        flags_adapted(before, c, after),
        0 <= j < M,
    ensures
        after[j] == nudged(before[j], c[j][0] as int, c[j][1] as int, 20, 128),
{
    lemma_flag(before[j], c[j]);
    assert(after[j] == adapted_flag(before[j], c[j]));
}

// ---------------------------------------------------------------------------
// Tables.
// ---------------------------------------------------------------------------

/// Every flag's probability of a 0 moves towards its own counts: whether a block
/// is inter, has two references, skips its residual, and which references it has.
pub proof fn lemma_block_flags(
    b: CompressedHeaderProbs,
    c: Counts,
    filter: u8,
    tx_mode: u8,
    hp: bool,
    a: CompressedHeaderProbs,
    j: int,
)
    requires
        noncoefs_adapted(b, c, filter, tx_mode, hp, a),
        0 <= j < 5,
    ensures
        j < 4 ==> a.is_inter_prob[j] == nudged(
            b.is_inter_prob[j],
            c.is_inter[j][0] as int,
            c.is_inter[j][1] as int,
            20,
            128,
        ),
        a.comp_mode_prob[j] == nudged(
            b.comp_mode_prob[j],
            c.comp_mode[j][0] as int,
            c.comp_mode[j][1] as int,
            20,
            128,
        ),
        a.comp_ref_prob[j] == nudged(
            b.comp_ref_prob[j],
            c.comp_ref[j][0] as int,
            c.comp_ref[j][1] as int,
            20,
            128,
        ),
        j < 3 ==> a.skip_prob[j] == nudged(
            b.skip_prob[j],
            c.skip[j][0] as int,
            c.skip[j][1] as int,
            20,
            128,
        ),
        a.single_ref_prob[j][0] == nudged(
            b.single_ref_prob[j][0],
            c.single_ref[j][0][0] as int,
            c.single_ref[j][0][1] as int,
            20,
            128,
        ),
        a.single_ref_prob[j][1] == nudged(
            b.single_ref_prob[j][1],
            c.single_ref[j][1][0] as int,
            c.single_ref[j][1][1] as int,
            20,
            128,
        ),
{
    if j < 4 {
        lemma_flag_row(b.is_inter_prob, c.is_inter, a.is_inter_prob, j);
    }
    lemma_flag_row(b.comp_mode_prob, c.comp_mode, a.comp_mode_prob, j);
    lemma_flag_row(b.comp_ref_prob, c.comp_ref, a.comp_ref_prob, j);
    if j < 3 {
        lemma_flag_row(b.skip_prob, c.skip, a.skip_prob, j);
    }
    assert(flags_adapted(b.single_ref_prob[j], c.single_ref[j], a.single_ref_prob[j]));
    lemma_flag_row(b.single_ref_prob[j], c.single_ref[j], a.single_ref_prob[j], 0);
    lemma_flag_row(b.single_ref_prob[j], c.single_ref[j], a.single_ref_prob[j], 1);
}

/// Inter modes: a zero vector is told from the others first, then the nearest, then
/// the near from the new.
pub proof fn lemma_inter_modes(
    b: CompressedHeaderProbs,
    c: Counts,
    filter: u8,
    tx_mode: u8,
    hp: bool,
    a: CompressedHeaderProbs,
    j: int,
)
    requires
        noncoefs_adapted(b, c, filter, tx_mode, hp, a),
        0 <= j < 7,
    ensures
        ({
            let n = c.inter_mode[j];
            let old = b.inter_mode_probs[j];
            let new = a.inter_mode_probs[j];
            &&& new[0] == nudged(old[0], n[2] as int, n[0] + n[1] + n[3], 20, 128)
            &&& new[1] == nudged(old[1], n[0] as int, n[1] + n[3], 20, 128)
            &&& new[2] == nudged(old[2], n[1] as int, n[3] as int, 20, 128)
        }),
{
    let n = c.inter_mode[j];
    lemma_inter_mode_tree(b.inter_mode_probs[j]@, n@);
    assert(a.inter_mode_probs[j]@ == adapted_tree(INTER_MODE_TREE@, b.inter_mode_probs[j]@, n@));
}

/// Luma intra modes, one by one down the tree of modes.
pub proof fn lemma_luma_modes(
    b: CompressedHeaderProbs,
    c: Counts,
    filter: u8,
    tx_mode: u8,
    hp: bool,
    a: CompressedHeaderProbs,
    j: int,
)
    requires
        noncoefs_adapted(b, c, filter, tx_mode, hp, a),
        0 <= j < 4,
    ensures
        ({
            let n = c.intra_mode[j];
            let old = b.y_mode_probs[j];
            let new = a.y_mode_probs[j];
            &&& new[0] == nudged(
                old[0],
                n[0] as int,
                n[1] + n[2] + n[3] + n[4] + n[5] + n[6] + n[7] + n[8] + n[9],
                20,
                128,
            )
            &&& new[1] == nudged(
                old[1],
                n[9] as int,
                n[1] + n[2] + n[3] + n[4] + n[5] + n[6] + n[7] + n[8],
                20,
                128,
            )
            &&& new[2] == nudged(
                old[2],
                n[1] as int,
                n[2] + n[3] + n[4] + n[5] + n[6] + n[7] + n[8],
                20,
                128,
            )
            &&& new[3] == nudged(old[3], n[2] + n[4] + n[5], n[3] + n[6] + n[7] + n[8], 20, 128)
            &&& new[4] == nudged(old[4], n[2] as int, n[4] + n[5], 20, 128)
            &&& new[5] == nudged(old[5], n[4] as int, n[5] as int, 20, 128)
            &&& new[6] == nudged(old[6], n[3] as int, n[6] + n[7] + n[8], 20, 128)
            &&& new[7] == nudged(old[7], n[8] as int, n[6] + n[7], 20, 128)
            &&& new[8] == nudged(old[8], n[6] as int, n[7] as int, 20, 128)
        }),
{
    let n = c.intra_mode[j];
    lemma_intra_mode_tree(b.y_mode_probs[j]@, n@);
    assert(a.y_mode_probs[j]@ == adapted_tree(INTRA_MODE_TREE@, b.y_mode_probs[j]@, n@));
}

/// Chroma intra modes, one by one down the tree of modes.
pub proof fn lemma_chroma_modes(
    b: CompressedHeaderProbs,
    c: Counts,
    filter: u8,
    tx_mode: u8,
    hp: bool,
    a: CompressedHeaderProbs,
    j: int,
)
    requires
        noncoefs_adapted(b, c, filter, tx_mode, hp, a),
        0 <= j < 10,
    ensures
        ({
            let n = c.uv_mode[j];
            let old = b.uv_mode_probs[j];
            let new = a.uv_mode_probs[j];
            &&& new[0] == nudged(
                old[0],
                n[0] as int,
                n[1] + n[2] + n[3] + n[4] + n[5] + n[6] + n[7] + n[8] + n[9],
                20,
                128,
            )
            &&& new[1] == nudged(
                old[1],
                n[9] as int,
                n[1] + n[2] + n[3] + n[4] + n[5] + n[6] + n[7] + n[8],
                20,
                128,
            )
            &&& new[2] == nudged(
                old[2],
                n[1] as int,
                n[2] + n[3] + n[4] + n[5] + n[6] + n[7] + n[8],
                20,
                128,
            )
            &&& new[3] == nudged(old[3], n[2] + n[4] + n[5], n[3] + n[6] + n[7] + n[8], 20, 128)
            &&& new[4] == nudged(old[4], n[2] as int, n[4] + n[5], 20, 128)
            &&& new[5] == nudged(old[5], n[4] as int, n[5] as int, 20, 128)
            &&& new[6] == nudged(old[6], n[3] as int, n[6] + n[7] + n[8], 20, 128)
            &&& new[7] == nudged(old[7], n[8] as int, n[6] + n[7], 20, 128)
            &&& new[8] == nudged(old[8], n[6] as int, n[7] as int, 20, 128)
        }),
{
    let n = c.uv_mode[j];
    lemma_intra_mode_tree(b.uv_mode_probs[j]@, n@);
    assert(a.uv_mode_probs[j]@ == adapted_tree(INTRA_MODE_TREE@, b.uv_mode_probs[j]@, n@));
}

/// Partitions: undivided, then across, then down, then into four.
pub proof fn lemma_partitions(
    b: CompressedHeaderProbs,
    c: Counts,
    filter: u8,
    tx_mode: u8,
    hp: bool,
    a: CompressedHeaderProbs,
    j: int,
)
    requires
        noncoefs_adapted(b, c, filter, tx_mode, hp, a),
        0 <= j < 16,
    ensures
        ({
            let n = c.partition[j];
            let old = b.partition_probs[j];
            let new = a.partition_probs[j];
            &&& new[0] == nudged(old[0], n[0] as int, n[1] + n[2] + n[3], 20, 128)
            &&& new[1] == nudged(old[1], n[1] as int, n[2] + n[3], 20, 128)
            &&& new[2] == nudged(old[2], n[2] as int, n[3] as int, 20, 128)
        }),
{
    let n = c.partition[j];
    lemma_partition_tree(b.partition_probs[j]@, n@);
    assert(a.partition_probs[j]@ == adapted_tree(PARTITION_TREE@, b.partition_probs[j]@, n@));
}

/// Interpolation filters, where blocks choose them.
pub proof fn lemma_filters(
    b: CompressedHeaderProbs,
    c: Counts,
    filter: u8,
    tx_mode: u8,
    hp: bool,
    a: CompressedHeaderProbs,
    j: int,
)
    requires
        noncoefs_adapted(b, c, filter, tx_mode, hp, a),
        0 <= j < 4,
        filter == SWITCHABLE,
    ensures
        ({
            let n = c.interp_filter[j];
            let old = b.interp_filter_probs[j];
            let new = a.interp_filter_probs[j];
            &&& new[0] == nudged(old[0], n[0] as int, n[1] + n[2], 20, 128)
            &&& new[1] == nudged(old[1], n[1] as int, n[2] as int, 20, 128)
        }),
{
    let n = c.interp_filter[j];
    lemma_interp_filter_tree(b.interp_filter_probs[j]@, n@);
    assert(
        a.interp_filter_probs[j]@ == adapted_tree(INTERP_FILTER_TREE@, b.interp_filter_probs[j]@, n@)
    );
}

/// Classes of motion vectors, of rows and of columns.
pub proof fn lemma_vector_classes(
    b: CompressedHeaderProbs,
    c: Counts,
    filter: u8,
    tx_mode: u8,
    hp: bool,
    a: CompressedHeaderProbs,
    j: int,
)
    requires
        noncoefs_adapted(b, c, filter, tx_mode, hp, a),
        0 <= j < 2,
    ensures
        ({
            let n = c.mv_class[j];
            let old = b.mv_class_probs[j];
            let new = a.mv_class_probs[j];
            &&& new[0] == nudged(
                old[0],
                n[0] as int,
                n[1] + n[2] + n[3] + n[4] + n[5] + n[6] + n[7] + n[8] + n[9] + n[10],
                20,
                128,
            )
            &&& new[1] == nudged(
                old[1],
                n[1] as int,
                n[2] + n[3] + n[4] + n[5] + n[6] + n[7] + n[8] + n[9] + n[10],
                20,
                128,
            )
            &&& new[2] == nudged(
                old[2],
                n[2] + n[3],
                n[4] + n[5] + n[6] + n[7] + n[8] + n[9] + n[10],
                20,
                128,
            )
            &&& new[3] == nudged(old[3], n[2] as int, n[3] as int, 20, 128)
            &&& new[4] == nudged(old[4], n[4] + n[5], n[6] + n[7] + n[8] + n[9] + n[10], 20, 128)
            &&& new[5] == nudged(old[5], n[4] as int, n[5] as int, 20, 128)
            &&& new[6] == nudged(old[6], n[6] as int, n[7] + n[8] + n[9] + n[10], 20, 128)
            &&& new[7] == nudged(old[7], n[7] + n[8], n[9] + n[10], 20, 128)
            &&& new[8] == nudged(old[8], n[7] as int, n[8] as int, 20, 128)
            &&& new[9] == nudged(old[9], n[9] as int, n[10] as int, 20, 128)
        }),
{
    let n = c.mv_class[j];
    lemma_mv_class_tree(b.mv_class_probs[j]@, n@);
    assert(a.mv_class_probs[j]@ == adapted_tree(MV_CLASS_TREE@, b.mv_class_probs[j]@, n@));
}

/// Fractions of motion vectors beyond the first class.
pub proof fn lemma_vector_fractions(
    b: CompressedHeaderProbs,
    c: Counts,
    filter: u8,
    tx_mode: u8,
    hp: bool,
    a: CompressedHeaderProbs,
    j: int,
)
    requires
        noncoefs_adapted(b, c, filter, tx_mode, hp, a),
        0 <= j < 2,
    ensures
        ({
            let n = c.mv_fr[j];
            let old = b.mv_fr_probs[j];
            let new = a.mv_fr_probs[j];
            &&& new[0] == nudged(old[0], n[0] as int, n[1] + n[2] + n[3], 20, 128)
            &&& new[1] == nudged(old[1], n[1] as int, n[2] + n[3], 20, 128)
            &&& new[2] == nudged(old[2], n[2] as int, n[3] as int, 20, 128)
        }),
{
    let n = c.mv_fr[j];
    lemma_mv_fr_tree(b.mv_fr_probs[j]@, n@);
    assert(a.mv_fr_probs[j]@ == adapted_tree(MV_FR_TREE@, b.mv_fr_probs[j]@, n@));
}

/// Which components of a motion vector are not zero.
pub proof fn lemma_vector_joints(
    b: CompressedHeaderProbs,
    c: Counts,
    filter: u8,
    tx_mode: u8,
    hp: bool,
    a: CompressedHeaderProbs,
)
    requires
        noncoefs_adapted(b, c, filter, tx_mode, hp, a),
    ensures
        ({
            let n = c.mv_joint;
            let old = b.mv_joint_probs;
            let new = a.mv_joint_probs;
            &&& new[0] == nudged(old[0], n[0] as int, n[1] + n[2] + n[3], 20, 128)
            &&& new[1] == nudged(old[1], n[1] as int, n[2] + n[3], 20, 128)
            &&& new[2] == nudged(old[2], n[2] as int, n[3] as int, 20, 128)
        }),
{
    lemma_mv_joint_tree(b.mv_joint_probs@, c.mv_joint@);
}

/// The other parts of a motion vector, of rows and of columns: its sign, the bits
/// of its size and the fractions of the first class.
pub proof fn lemma_vector_parts(
    b: CompressedHeaderProbs,
    c: Counts,
    filter: u8,
    tx_mode: u8,
    hp: bool,
    a: CompressedHeaderProbs,
    j: int,
    k: int,
)
    requires
        noncoefs_adapted(b, c, filter, tx_mode, hp, a),
        0 <= j < 2,
        0 <= k < 10,
    ensures
        a.mv_sign_prob[j] == nudged(
            b.mv_sign_prob[j],
            c.mv_sign[j][0] as int,
            c.mv_sign[j][1] as int,
            20,
            128,
        ),
        a.mv_class0_bit_prob[j] == nudged(
            b.mv_class0_bit_prob[j],
            c.mv_class0_bit[j][0] as int,
            c.mv_class0_bit[j][1] as int,
            20,
            128,
        ),
        a.mv_bits_prob[j][k] == nudged(
            b.mv_bits_prob[j][k],
            c.mv_bits[j][k][0] as int,
            c.mv_bits[j][k][1] as int,
            20,
            128,
        ),
        k < 2 ==> {
            let n = c.mv_class0_fr[j][k];
            let old = b.mv_class0_fr_probs[j][k];
            let new = a.mv_class0_fr_probs[j][k];
            &&& new[0] == nudged(old[0], n[0] as int, n[1] + n[2] + n[3], 20, 128)
            &&& new[1] == nudged(old[1], n[1] as int, n[2] + n[3], 20, 128)
            &&& new[2] == nudged(old[2], n[2] as int, n[3] as int, 20, 128)
        },
{
    lemma_flag_row(b.mv_sign_prob, c.mv_sign, a.mv_sign_prob, j);
    lemma_flag_row(b.mv_class0_bit_prob, c.mv_class0_bit, a.mv_class0_bit_prob, j);
    assert(flags_adapted(b.mv_bits_prob[j], c.mv_bits[j], a.mv_bits_prob[j]));
    lemma_flag_row(b.mv_bits_prob[j], c.mv_bits[j], a.mv_bits_prob[j], k);
    if k < 2 {
        let old = b.mv_class0_fr_probs[j];
        let n = c.mv_class0_fr[j];
        let new = a.mv_class0_fr_probs[j];
        assert(trees_adapted(MV_FR_TREE@, old, n, new));
        lemma_mv_fr_tree(old[k]@, n[k]@);
        assert(new[k]@ == adapted_tree(MV_FR_TREE@, old[k]@, n[k]@));
    }
}

/// The finest bit of motion vectors adapts where the frame has it, and the filters
/// and transform sizes where blocks choose them; otherwise they stay. Coefficients
/// are not touched here.
pub proof fn lemma_conditional_tables(
    b: CompressedHeaderProbs,
    c: Counts,
    filter: u8,
    tx_mode: u8,
    hp: bool,
    a: CompressedHeaderProbs,
    j: int,
)
    requires
        noncoefs_adapted(b, c, filter, tx_mode, hp, a),
        0 <= j < 2,
    ensures
        hp ==> a.mv_hp_prob[j] == nudged(
            b.mv_hp_prob[j],
            c.mv_hp[j][0] as int,
            c.mv_hp[j][1] as int,
            20,
            128,
        ),
        hp ==> a.mv_class0_hp_prob[j] == nudged(
            b.mv_class0_hp_prob[j],
            c.mv_class0_hp[j][0] as int,
            c.mv_class0_hp[j][1] as int,
            20,
            128,
        ),
        !hp ==> a.mv_hp_prob == b.mv_hp_prob && a.mv_class0_hp_prob == b.mv_class0_hp_prob,
        filter != SWITCHABLE ==> a.interp_filter_probs == b.interp_filter_probs,
        tx_mode != TX_MODE_SELECT ==> a.tx_probs == b.tx_probs,
        a.coef_probs == b.coef_probs,
{
    if hp {
        lemma_flag_row(b.mv_hp_prob, c.mv_hp, a.mv_hp_prob, j);
        lemma_flag_row(b.mv_class0_hp_prob, c.mv_class0_hp, a.mv_class0_hp_prob, j);
    }
}

/// Transform sizes, where blocks choose them: by the largest size that a block can
/// have, each size is told from the larger ones.
pub proof fn lemma_transform_sizes(
    b: CompressedHeaderProbs,
    c: Counts,
    filter: u8,
    tx_mode: u8,
    hp: bool,
    a: CompressedHeaderProbs,
    j: int,
)
    requires
        noncoefs_adapted(b, c, filter, tx_mode, hp, a),
        tx_mode == TX_MODE_SELECT,
        0 <= j < 2,
    ensures
        ({
            let n = c.tx_size[1][j];
            let old = b.tx_probs[1][j];
            let new = a.tx_probs[1][j];
            &&& new[0] == nudged(old[0], n[0] as int, n[1] as int, 20, 128)
            &&& new[1] == old[1]
            &&& new[2] == old[2]
        }),
        ({
            let n = c.tx_size[2][j];
            let old = b.tx_probs[2][j];
            let new = a.tx_probs[2][j];
            &&& new[0] == nudged(old[0], n[0] as int, n[1] + n[2], 20, 128)
            &&& new[1] == nudged(old[1], n[1] as int, n[2] as int, 20, 128)
            &&& new[2] == old[2]
        }),
        ({
            let n = c.tx_size[3][j];
            let old = b.tx_probs[3][j];
            let new = a.tx_probs[3][j];
            &&& new[0] == nudged(old[0], n[0] as int, n[1] + n[2] + n[3], 20, 128)
            &&& new[1] == nudged(old[1], n[1] as int, n[2] + n[3], 20, 128)
            &&& new[2] == nudged(old[2], n[2] as int, n[3] as int, 20, 128)
        }),
{
    let old1 = b.tx_probs[1];
    let n1 = c.tx_size[1];
    let new1 = a.tx_probs[1];
    lemma_tx_size_8_tree(old1[j]@, n1[j]@);
    assert(new1[j]@ == adapted_tree(TX_SIZE_8_TREE@, old1[j]@, n1[j]@));
    let old2 = b.tx_probs[2];
    let n2 = c.tx_size[2];
    let new2 = a.tx_probs[2];
    lemma_tx_size_16_tree(old2[j]@, n2[j]@);
    assert(new2[j]@ == adapted_tree(TX_SIZE_16_TREE@, old2[j]@, n2[j]@));
    let old3 = b.tx_probs[3];
    let n3 = c.tx_size[3];
    let new3 = a.tx_probs[3];
    lemma_tx_size_32_tree(old3[j]@, n3[j]@);
    assert(new3[j]@ == adapted_tree(TX_SIZE_32_TREE@, old3[j]@, n3[j]@));
}

proof fn lemma_coef_row(p: Seq<u8>, token: Seq<u32>, more: Seq<u32>, most: int)
    requires
        p.len() == 3,
        token.len() == 3,
        more.len() == 2,
        0 <= most <= 256,
    ensures
        ({
            let a = adapted_coef_row(p, token, more, most);
            &&& a.len() == 3
            &&& a[0] == nudged(p[0], more[0] as int, more[1] as int, 24, most)
            &&& a[1] == nudged(p[1], token[0] as int, token[1] + token[2], 24, most)
            &&& a[2] == nudged(p[2], token[1] as int, token[2] as int, 24, most)
        }),
{
    reveal_with_fuel(merged_tree, 3);
    reveal_with_fuel(branch_count, 3);
    lemma_merged_is_nudged(p[0], more[0] as int, more[1] as int, 24, most);
    lemma_merged_is_nudged(p[1], token[0] as int, token[1] + token[2], 24, most);
    lemma_merged_is_nudged(p[2], token[1] as int, token[2] as int, 24, most);
}

/// The coefficient probabilities of every used row move towards its counts: that
/// there are more coefficients, then that the next is zero, then that it is one.
/// Band 0 has three contexts, the other bands have six; rows beyond stay.
pub proof fn lemma_coefficients(
    before: CoefProbs,
    c: Counts,
    most: int,
    after: CoefProbs,
    t: int,
    i: int,
    j: int,
    k: int,
    l: int,
)
    requires
        coefs_adapted(before, c, most, after),
        0 <= most <= 256,
        0 <= t < 4,
        0 <= i < 2,
        0 <= j < 2,
        0 <= k < 6,
        0 <= l < 6,
    ensures
        ({
            let old = before[t][i][j][k][l];
            let new = after[t][i][j][k][l];
            let more = c.more_coefs[t][i][j][k][l];
            let token = c.token[t][i][j][k][l];
            &&& k >= 1 || l <= 2 ==> {
                &&& new[0] == nudged(old[0], more[0] as int, more[1] as int, 24, most)
                &&& new[1] == nudged(old[1], token[0] as int, token[1] + token[2], 24, most)
                &&& new[2] == nudged(old[2], token[1] as int, token[2] as int, 24, most)
            }
            &&& k == 0 && l >= 3 ==> new@ == old@
        }),
{
    let bands = after[t][i][j];
    assert(bands_adapted(
        before[t][i][j],
        c.token[t][i][j],
        c.more_coefs[t][i][j],
        most,
        bands,
    ));
    let row = bands[k][l];
    lemma_coef_row(
        before[t][i][j][k][l]@,
        c.token[t][i][j][k][l]@,
        c.more_coefs[t][i][j][k][l]@,
        most,
    );
    assert(row@ == after[t][i][j][k][l]@);
}

} // verus!
