//! Symbol counters and the adaptation of probabilities.

use vp9dec::compressed_header::FrameContext;
use vp9dec::counts::{adapt_coef_probs, adapt_noncoef_probs, merge_prob, merge_probs, Counts};
use vp9dec::prob_tables::{BINARY_TREE, EIGHTTAP, SWITCHABLE, TX_MODE_SELECT};

#[test]
fn add_assign_sums_counters_across_all_field_shapes() {
    let mut a = Counts::new();
    let mut b = Counts::new();
    a.intra_mode[1][2] = 5;
    a.mv_joint[3] = 4;
    a.token[3][1][0][5][4][2] = 7;
    b.intra_mode[1][2] = 10;
    b.mv_joint[3] = 100;
    b.token[3][1][0][5][4][2] = 1;
    b.more_coefs[2][1][1][3][2][0] = 9;
    a.add_assign(&b);
    assert_eq!(a.intra_mode[1][2], 15);
    assert_eq!(a.mv_joint[3], 104);
    assert_eq!(a.token[3][1][0][5][4][2], 8);
    assert_eq!(a.more_coefs[2][1][1][3][2][0], 9);
    assert_eq!(a.uv_mode[0][0], 0, "untouched field must stay 0");
}

#[test]
fn merge_prob_with_no_observations_keeps_preprob_untouched_direction() {
    assert_eq!(merge_prob(200, 0, 0, 20, 128), 200);
}

#[test]
fn merge_prob_saturates_toward_observed_ratio_with_enough_counts() {
    let out = merge_prob(200, 0, 100, 20, 128);
    assert!(out < 200);
}

#[test]
fn merge_probs_binary_tree_updates_single_prob() {
    let mut probs = [100u8, 0, 0];
    let counts = [10u32, 30u32];
    merge_probs(&BINARY_TREE, 0, &mut probs, &counts, 20, 128);
    assert!(probs[0] < 100);
}

#[test]
fn merged_probabilities_lie_between_old_and_observed() {
    // 3 of 4 observed: 192. Four of twenty counts weigh 25 of 256.
    assert_eq!(merge_prob(100, 3, 1, 20, 128), 109);
    // With full weight the result is half way.
    assert_eq!(merge_prob(100, 30, 10, 20, 128), 146);
    assert_eq!(merge_prob(255, 0, 1000, 20, 128), 128);
    assert_eq!(merge_prob(1, 1000, 0, 20, 128), 128);
}

#[test]
fn sums_of_counters_do_not_depend_on_their_order() {
    let mut a = Counts::new();
    let mut b = Counts::new();
    a.skip[1][0] = 3;
    a.mv_bits[1][9][1] = u32::MAX;
    b.skip[1][0] = 4;
    b.mv_bits[1][9][1] = 2;
    let mut ab = a.clone();
    ab.add_assign(&b);
    let mut ba = b.clone();
    ba.add_assign(&a);
    assert_eq!((ab.skip[1][0], ab.mv_bits[1][9][1]), (7, 1));
    assert_eq!((ba.skip[1][0], ba.mv_bits[1][9][1]), (7, 1));
}

#[test]
fn coefficient_probabilities_adapt_to_their_counts() {
    let mut probs = FrameContext::default().coef_probs;
    let before = probs;
    let mut counts = Counts::new();
    adapt_coef_probs(&mut probs, &counts, 112);
    assert_eq!(probs, before);
    counts.more_coefs[2][1][0][3][4] = [0, 24];
    counts.token[2][1][0][3][4] = [48, 0, 0];
    adapt_coef_probs(&mut probs, &counts, 112);
    let old = before[2][1][0][3][4];
    let new = probs[2][1][0][3][4];
    assert_eq!(new[0], merge_prob(old[0], 0, 24, 24, 112));
    assert_eq!(new[1], merge_prob(old[1], 48, 0, 24, 112));
    assert_eq!(new[2], old[2]);
    probs[2][1][0][3][4] = old;
    assert_eq!(probs, before);
}

#[test]
fn other_probabilities_adapt_where_they_are_used() {
    let mut counts = Counts::new();
    counts.interp_filter[0] = [50, 0, 0];
    counts.mv_hp[0] = [0, 30];
    counts.tx_size[1][0] = [10, 30, 0, 0];
    counts.is_inter[2] = [25, 0];
    let before = FrameContext::default();
    let mut probs = FrameContext::default();
    adapt_noncoef_probs(&mut probs, &counts, EIGHTTAP, 0, false);
    assert_eq!(probs.is_inter_prob[2], merge_prob(before.is_inter_prob[2], 25, 0, 20, 128));
    assert_eq!(probs.interp_filter_probs, before.interp_filter_probs);
    assert_eq!(probs.mv_hp_prob, before.mv_hp_prob);
    assert_eq!(probs.tx_probs, before.tx_probs);
    let mut probs = FrameContext::default();
    adapt_noncoef_probs(&mut probs, &counts, SWITCHABLE, TX_MODE_SELECT, true);
    assert_eq!(
        probs.interp_filter_probs[0][0],
        merge_prob(before.interp_filter_probs[0][0], 50, 0, 20, 128)
    );
    assert_eq!(probs.mv_hp_prob[0], merge_prob(before.mv_hp_prob[0], 0, 30, 20, 128));
    assert_eq!(probs.mv_hp_prob[1], before.mv_hp_prob[1]);
    assert_eq!(probs.tx_probs[1][0][0], merge_prob(before.tx_probs[1][0][0], 10, 30, 20, 128));
}

#[test]
fn without_counts_no_table_changes() {
    let counts = Counts::new();
    for factor in [0, 112, 128, 256] {
        let mut probs = FrameContext::default();
        adapt_coef_probs(&mut probs.coef_probs, &counts, factor);
        for (filter, tx_mode, hp) in [(EIGHTTAP, 0, false), (SWITCHABLE, TX_MODE_SELECT, true)] {
            adapt_noncoef_probs(&mut probs, &counts, filter, tx_mode, hp);
            assert_eq!(probs, FrameContext::default());
        }
    }
}
