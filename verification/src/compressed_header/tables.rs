//! The probability tables of a frame, their initial values and the four saved
//! contexts.

use vstd::prelude::*;
use crate::prob_tables::coefficients::{lemma_default_coef_probs_nonzero, used_nonzero};
use crate::prob_tables::{
    CoefProbs, DEFAULT_COEF_PROBS, DEFAULT_COMP_MODE_PROB, DEFAULT_COMP_REF_PROB,
    DEFAULT_INTERP_FILTER_PROBS, DEFAULT_INTER_MODE_PROBS, DEFAULT_IS_INTER_PROB,
    DEFAULT_MV_BITS_PROB, DEFAULT_MV_CLASS0_BIT_PROB, DEFAULT_MV_CLASS0_FR_PROBS,
    DEFAULT_MV_CLASS0_HP_PROB, DEFAULT_MV_CLASS_PROBS, DEFAULT_MV_FR_PROBS, DEFAULT_MV_HP_PROB,
    DEFAULT_MV_JOINT_PROBS, DEFAULT_MV_SIGN_PROB, DEFAULT_PARTITION_PROBS, DEFAULT_SINGLE_REF_PROB,
    DEFAULT_SKIP_PROB, DEFAULT_TX_PROBS, DEFAULT_UV_MODE_PROBS, DEFAULT_Y_MODE_PROBS,
};

verus! {

/// The probability tables that frames load, update, adapt and save.
#[derive(Debug, PartialEq, Eq)]
pub struct CompressedHeaderProbs {
    /// By luma mode and node. Never updated here, only adapted.
    pub uv_mode_probs: [[u8; 9]; 10],
    /// By largest transform size, context and node.
    pub tx_probs: [[[u8; 3]; 2]; 4],
    pub coef_probs: CoefProbs,
    pub skip_prob: [u8; 3],
    pub inter_mode_probs: [[u8; 3]; 7],
    pub interp_filter_probs: [[u8; 2]; 4],
    pub is_inter_prob: [u8; 4],
    pub comp_mode_prob: [u8; 5],
    pub single_ref_prob: [[u8; 2]; 5],
    pub comp_ref_prob: [u8; 5],
    /// Of inter frames; intra frames use a fixed table.
    pub y_mode_probs: [[u8; 9]; 4],
    /// Of inter frames; intra frames use a fixed table.
    pub partition_probs: [[u8; 3]; 16],
    pub mv_joint_probs: [u8; 3],
    pub mv_sign_prob: [u8; 2],
    pub mv_class_probs: [[u8; 10]; 2],
    pub mv_class0_bit_prob: [u8; 2],
    pub mv_bits_prob: [[u8; 10]; 2],
    pub mv_class0_fr_probs: [[[u8; 3]; 2]; 2],
    pub mv_fr_probs: [[u8; 3]; 2],
    pub mv_class0_hp_prob: [u8; 2],
    pub mv_hp_prob: [u8; 2],
}

/// The unit of saving and loading.
pub type FrameContext = CompressedHeaderProbs;

/// No entry of a row is 0.
pub open spec fn row_nonzero<const N: usize>(row: [u8; N]) -> bool {
    forall|i: int| 0 <= i < N ==> #[trigger] row[i] >= 1
}

/// No entry of a table is 0.
pub open spec fn rows_nonzero<const N: usize, const M: usize>(rows: [[u8; N]; M]) -> bool {
    forall|j: int| 0 <= j < M ==> row_nonzero(#[trigger] rows[j])
}

/// The used nodes of the transform size probabilities are not 0: one node up
/// to 8x8, two up to 16x16, three up to 32x32.
pub open spec fn tx_nonzero(t: [[[u8; 3]; 2]; 4]) -> bool {
    forall|s: int, c: int, n: int|
        1 <= s < 4 && 0 <= c < 2 && 0 <= n < s ==> #[trigger] t[s][c][n] >= 1
}

/// The used entries of the coefficient probabilities are not 0.
pub open spec fn coef_nonzero(p: CoefProbs) -> bool {
    forall|t: int, i: int, j: int|
        0 <= t < 4 && 0 <= i < 2 && 0 <= j < 2 ==> used_nonzero(#[trigger] p[t][i][j]@)
}

/// No probability that can be updated is 0.
pub open spec fn probs_valid(p: CompressedHeaderProbs) -> bool {
    &&& tx_nonzero(p.tx_probs)
    &&& coef_nonzero(p.coef_probs)
    &&& row_nonzero(p.skip_prob)
    &&& rows_nonzero(p.inter_mode_probs)
    &&& rows_nonzero(p.interp_filter_probs)
    &&& row_nonzero(p.is_inter_prob)
    &&& row_nonzero(p.comp_mode_prob)
    &&& rows_nonzero(p.single_ref_prob)
    &&& row_nonzero(p.comp_ref_prob)
    &&& rows_nonzero(p.y_mode_probs)
    &&& rows_nonzero(p.partition_probs)
}

/// The initial tables.
#[verifier::opaque]
pub open spec fn default_probs() -> CompressedHeaderProbs {
    CompressedHeaderProbs {
        uv_mode_probs: DEFAULT_UV_MODE_PROBS,
        tx_probs: DEFAULT_TX_PROBS,
        coef_probs: DEFAULT_COEF_PROBS,
        skip_prob: DEFAULT_SKIP_PROB,
        inter_mode_probs: DEFAULT_INTER_MODE_PROBS,
        interp_filter_probs: DEFAULT_INTERP_FILTER_PROBS,
        is_inter_prob: DEFAULT_IS_INTER_PROB,
        comp_mode_prob: DEFAULT_COMP_MODE_PROB,
        single_ref_prob: DEFAULT_SINGLE_REF_PROB,
        comp_ref_prob: DEFAULT_COMP_REF_PROB,
        y_mode_probs: DEFAULT_Y_MODE_PROBS,
        partition_probs: DEFAULT_PARTITION_PROBS,
        mv_joint_probs: DEFAULT_MV_JOINT_PROBS,
        mv_sign_prob: DEFAULT_MV_SIGN_PROB,
        mv_class_probs: DEFAULT_MV_CLASS_PROBS,
        mv_class0_bit_prob: DEFAULT_MV_CLASS0_BIT_PROB,
        mv_bits_prob: DEFAULT_MV_BITS_PROB,
        mv_class0_fr_probs: DEFAULT_MV_CLASS0_FR_PROBS,
        mv_fr_probs: DEFAULT_MV_FR_PROBS,
        mv_class0_hp_prob: DEFAULT_MV_CLASS0_HP_PROB,
        mv_hp_prob: DEFAULT_MV_HP_PROB,
    }
}

#[verifier::spinoff_prover]
proof fn lemma_default_rows_a()
    ensures
        tx_nonzero(DEFAULT_TX_PROBS),
        row_nonzero(DEFAULT_SKIP_PROB),
        rows_nonzero(DEFAULT_INTER_MODE_PROBS),
        rows_nonzero(DEFAULT_INTERP_FILTER_PROBS),
        row_nonzero(DEFAULT_IS_INTER_PROB),
{
}

#[verifier::spinoff_prover]
proof fn lemma_default_rows_b()
    ensures
        row_nonzero(DEFAULT_COMP_MODE_PROB),
        rows_nonzero(DEFAULT_SINGLE_REF_PROB),
        row_nonzero(DEFAULT_COMP_REF_PROB),
        rows_nonzero(DEFAULT_Y_MODE_PROBS),
        rows_nonzero(DEFAULT_PARTITION_PROBS),
{
}

/// The initial tables are valid.
#[verifier::spinoff_prover]
pub proof fn lemma_default_probs_valid()
    ensures
        probs_valid(default_probs()),
{
    reveal(default_probs);
    lemma_default_rows_a();
    lemma_default_rows_b();
    assert forall|t: int, i: int, j: int|
        0 <= t < 4 && 0 <= i < 2 && 0 <= j < 2 implies used_nonzero(
        #[trigger] DEFAULT_COEF_PROBS[t][i][j]@,
    ) by {
        lemma_default_coef_probs_nonzero(t, i, j);
    }
}

impl Default for CompressedHeaderProbs {
    #[verifier::spinoff_prover]
    fn default() -> (r: Self)
        ensures
            r == default_probs(),
    {
        proof {
            reveal(default_probs);
        }
        CompressedHeaderProbs {
            uv_mode_probs: DEFAULT_UV_MODE_PROBS,
            tx_probs: DEFAULT_TX_PROBS,
            coef_probs: DEFAULT_COEF_PROBS,
            skip_prob: DEFAULT_SKIP_PROB,
            inter_mode_probs: DEFAULT_INTER_MODE_PROBS,
            interp_filter_probs: DEFAULT_INTERP_FILTER_PROBS,
            is_inter_prob: DEFAULT_IS_INTER_PROB,
            comp_mode_prob: DEFAULT_COMP_MODE_PROB,
            single_ref_prob: DEFAULT_SINGLE_REF_PROB,
            comp_ref_prob: DEFAULT_COMP_REF_PROB,
            y_mode_probs: DEFAULT_Y_MODE_PROBS,
            partition_probs: DEFAULT_PARTITION_PROBS,
            mv_joint_probs: DEFAULT_MV_JOINT_PROBS,
            mv_sign_prob: DEFAULT_MV_SIGN_PROB,
            mv_class_probs: DEFAULT_MV_CLASS_PROBS,
            mv_class0_bit_prob: DEFAULT_MV_CLASS0_BIT_PROB,
            mv_bits_prob: DEFAULT_MV_BITS_PROB,
            mv_class0_fr_probs: DEFAULT_MV_CLASS0_FR_PROBS,
            mv_fr_probs: DEFAULT_MV_FR_PROBS,
            mv_class0_hp_prob: DEFAULT_MV_CLASS0_HP_PROB,
            mv_hp_prob: DEFAULT_MV_HP_PROB,
        }
    }
}

impl Clone for CompressedHeaderProbs {
    #[verifier::spinoff_prover]
    fn clone(&self) -> (r: Self)
        ensures
            r == *self,
    {
        CompressedHeaderProbs {
            uv_mode_probs: self.uv_mode_probs,
            tx_probs: self.tx_probs,
            coef_probs: self.coef_probs,
            skip_prob: self.skip_prob,
            inter_mode_probs: self.inter_mode_probs,
            interp_filter_probs: self.interp_filter_probs,
            is_inter_prob: self.is_inter_prob,
            comp_mode_prob: self.comp_mode_prob,
            single_ref_prob: self.single_ref_prob,
            comp_ref_prob: self.comp_ref_prob,
            y_mode_probs: self.y_mode_probs,
            partition_probs: self.partition_probs,
            mv_joint_probs: self.mv_joint_probs,
            mv_sign_prob: self.mv_sign_prob,
            mv_class_probs: self.mv_class_probs,
            mv_class0_bit_prob: self.mv_class0_bit_prob,
            mv_bits_prob: self.mv_bits_prob,
            mv_class0_fr_probs: self.mv_class0_fr_probs,
            mv_fr_probs: self.mv_fr_probs,
            mv_class0_hp_prob: self.mv_class0_hp_prob,
            mv_hp_prob: self.mv_hp_prob,
        }
    }
}

/// The four saved contexts.
#[derive(Debug)]
pub struct FrameContextStore {
    pub contexts: [FrameContext; 4],
}

impl FrameContextStore {
    /// All four contexts at their initial values.
    #[verifier::spinoff_prover]
    pub fn new() -> (r: Self)
        ensures
            forall|i: int| 0 <= i < 4 ==> #[trigger] r.contexts[i] == default_probs(),
    {
        FrameContextStore {
            contexts: [
                FrameContext::default(),
                FrameContext::default(),
                FrameContext::default(),
                FrameContext::default(),
            ],
        }
    }

    /// A copy of a context.
    #[verifier::spinoff_prover]
    pub fn load(&self, idx: u8) -> (ctx: FrameContext)
        requires
            idx < 4,
        ensures
            ctx == self.contexts[idx as int],
    {
        self.contexts[idx as usize].clone()
    }

    /// Replaces a context; the others stay.
    #[verifier::spinoff_prover]
    pub fn save(&mut self, idx: u8, ctx: FrameContext)
        requires
            idx < 4,
        ensures
            final(self).contexts@ == old(self).contexts@.update(idx as int, ctx),
    {
        self.contexts[idx as usize] = ctx;
    }

    /// Brings all four contexts back to their initial values.
    #[verifier::spinoff_prover]
    pub fn reset_all(&mut self)
        ensures
            forall|i: int| 0 <= i < 4 ==> #[trigger] final(self).contexts[i] == default_probs(),
    {
        self.contexts = [
            FrameContext::default(),
            FrameContext::default(),
            FrameContext::default(),
            FrameContext::default(),
        ];
    }
}

impl Clone for FrameContextStore {
    #[verifier::spinoff_prover]
    fn clone(&self) -> (r: Self)
        ensures
            r.contexts@ == self.contexts@,
    {
        let r = FrameContextStore {
            contexts: [self.load(0), self.load(1), self.load(2), self.load(3)],
        };
        assert(r.contexts@ =~= self.contexts@);
        r
    }
}

impl Default for FrameContextStore {
    #[verifier::spinoff_prover]
    fn default() -> (r: Self)
        ensures
            forall|i: int| 0 <= i < 4 ==> #[trigger] r.contexts[i] == default_probs(),
    {
        Self::new()
    }
}

} // verus!
