//! Symbol counters and the adaptation of probabilities to them.

use vstd::prelude::*;
use crate::common::spec_clip3;
use crate::compressed_header::{
    coef_nonzero, probs_valid, row_nonzero, rows_nonzero, tx_nonzero, CompressedHeaderProbs,
};
use crate::prob_tables::coefficients::used_nonzero;
use crate::prob_tables::{
    CoefProbs, BINARY_TREE, COUNT_SAT, INTERP_FILTER_TREE, INTER_MODE_TREE, INTRA_MODE_TREE,
    MAX_UPDATE_FACTOR, MV_CLASS_TREE, MV_FR_TREE, MV_JOINT_TREE, PARTITION_TREE, SMALL_TOKEN_TREE,
    SWITCHABLE, TX_MODE_SELECT, TX_SIZE_16_TREE, TX_SIZE_32_TREE, TX_SIZE_8_TREE,
};

pub mod laws;
pub mod tables;

verus! {

/// Token counters, by transform size, plane type, reference type, band,
/// context and token class.
pub type TokenCounts = [[[[[[u32; 3]; 6]; 6]; 2]; 2]; 4];

/// Counters of whether more coefficients follow, likewise.
pub type MoreCoefsCounts = [[[[[[u32; 2]; 6]; 6]; 2]; 2]; 4];

/// How often each symbol was decoded in a frame.
#[derive(Debug)]
pub struct Counts {
    pub intra_mode: [[u32; 10]; 4],
    pub uv_mode: [[u32; 10]; 10],
    pub partition: [[u32; 4]; 16],
    pub interp_filter: [[u32; 3]; 4],
    pub inter_mode: [[u32; 4]; 7],
    /// By largest transform size, context and size.
    pub tx_size: [[[u32; 4]; 2]; 4],
    pub is_inter: [[u32; 2]; 4],
    pub comp_mode: [[u32; 2]; 5],
    /// By context, number of the flag and value.
    pub single_ref: [[[u32; 2]; 2]; 5],
    pub comp_ref: [[u32; 2]; 5],
    pub skip: [[u32; 2]; 3],
    pub mv_joint: [u32; 4],
    pub mv_sign: [[u32; 2]; 2],
    pub mv_class: [[u32; 11]; 2],
    pub mv_class0_bit: [[u32; 2]; 2],
    pub mv_class0_fr: [[[u32; 4]; 2]; 2],
    pub mv_class0_hp: [[u32; 2]; 2],
    pub mv_bits: [[[u32; 2]; 10]; 2],
    pub mv_fr: [[u32; 4]; 2],
    pub mv_hp: [[u32; 2]; 2],
    pub token: TokenCounts,
    pub more_coefs: MoreCoefsCounts,
}

impl Clone for Counts {
    fn clone(&self) -> (r: Self)
        ensures
            r == *self,
    {
        Counts {
            intra_mode: self.intra_mode,
            uv_mode: self.uv_mode,
            partition: self.partition,
            interp_filter: self.interp_filter,
            inter_mode: self.inter_mode,
            tx_size: self.tx_size,
            is_inter: self.is_inter,
            comp_mode: self.comp_mode,
            single_ref: self.single_ref,
            comp_ref: self.comp_ref,
            skip: self.skip,
            mv_joint: self.mv_joint,
            mv_sign: self.mv_sign,
            mv_class: self.mv_class,
            mv_class0_bit: self.mv_class0_bit,
            mv_class0_fr: self.mv_class0_fr,
            mv_class0_hp: self.mv_class0_hp,
            mv_bits: self.mv_bits,
            mv_fr: self.mv_fr,
            mv_hp: self.mv_hp,
            token: self.token,
            more_coefs: self.more_coefs,
        }
    }
}

// ---------------------------------------------------------------------------
// Zero counters and sums of counters.
// ---------------------------------------------------------------------------

/// The sum modulo `2^32`.
pub open spec fn wsum(x: u32, y: u32) -> u32 {
    ((x + y) % 0x1_0000_0000) as u32
}

pub open spec fn zero1<const A: usize>(a: [u32; A]) -> bool {
    forall|i: int| 0 <= i < A ==> #[trigger] a[i] == 0
}

pub open spec fn zero2<const A: usize, const B: usize>(a: [[u32; A]; B]) -> bool {
    forall|i: int| 0 <= i < B ==> zero1(#[trigger] a[i])
}

pub open spec fn zero3<const A: usize, const B: usize, const C: usize>(
    a: [[[u32; A]; B]; C],
) -> bool {
    forall|i: int| 0 <= i < C ==> zero2(#[trigger] a[i])
}

pub open spec fn zero4<const A: usize, const B: usize, const C: usize, const D: usize>(
    a: [[[[u32; A]; B]; C]; D],
) -> bool {
    forall|i: int| 0 <= i < D ==> zero3(#[trigger] a[i])
}

pub open spec fn zero5<const A: usize, const B: usize, const C: usize, const D: usize, const E: usize>(
    a: [[[[[u32; A]; B]; C]; D]; E],
) -> bool {
    forall|i: int| 0 <= i < E ==> zero4(#[trigger] a[i])
}

pub open spec fn zero6<
    const A: usize,
    const B: usize,
    const C: usize,
    const D: usize,
    const E: usize,
    const F: usize,
>(a: [[[[[[u32; A]; B]; C]; D]; E]; F]) -> bool {
    forall|i: int| 0 <= i < F ==> zero5(#[trigger] a[i])
}

pub open spec fn sum1<const A: usize>(a: [u32; A], b: [u32; A], s: [u32; A]) -> bool {
    forall|i: int| 0 <= i < A ==> #[trigger] s[i] == wsum(a[i], b[i])
}

pub open spec fn sum2<const A: usize, const B: usize>(
    a: [[u32; A]; B],
    b: [[u32; A]; B],
    s: [[u32; A]; B],
) -> bool {
    forall|i: int| 0 <= i < B ==> sum1(a[i], b[i], #[trigger] s[i])
}

pub open spec fn sum3<const A: usize, const B: usize, const C: usize>(
    a: [[[u32; A]; B]; C],
    b: [[[u32; A]; B]; C],
    s: [[[u32; A]; B]; C],
) -> bool {
    forall|i: int| 0 <= i < C ==> sum2(a[i], b[i], #[trigger] s[i])
}

pub open spec fn sum4<const A: usize, const B: usize, const C: usize, const D: usize>(
    a: [[[[u32; A]; B]; C]; D],
    b: [[[[u32; A]; B]; C]; D],
    s: [[[[u32; A]; B]; C]; D],
) -> bool {
    forall|i: int| 0 <= i < D ==> sum3(a[i], b[i], #[trigger] s[i])
}

pub open spec fn sum5<const A: usize, const B: usize, const C: usize, const D: usize, const E: usize>(
    a: [[[[[u32; A]; B]; C]; D]; E],
    b: [[[[[u32; A]; B]; C]; D]; E],
    s: [[[[[u32; A]; B]; C]; D]; E],
) -> bool {
    forall|i: int| 0 <= i < E ==> sum4(a[i], b[i], #[trigger] s[i])
}

pub open spec fn sum6<
    const A: usize,
    const B: usize,
    const C: usize,
    const D: usize,
    const E: usize,
    const F: usize,
>(
    a: [[[[[[u32; A]; B]; C]; D]; E]; F],
    b: [[[[[[u32; A]; B]; C]; D]; E]; F],
    s: [[[[[[u32; A]; B]; C]; D]; E]; F],
) -> bool {
    forall|i: int| 0 <= i < F ==> sum5(a[i], b[i], #[trigger] s[i])
}

/// Every counter is 0.
pub open spec fn counts_zero(c: Counts) -> bool {
    &&& zero2(c.intra_mode)
    &&& zero2(c.uv_mode)
    &&& zero2(c.partition)
    &&& zero2(c.interp_filter)
    &&& zero2(c.inter_mode)
    &&& zero3(c.tx_size)
    &&& zero2(c.is_inter)
    &&& zero2(c.comp_mode)
    &&& zero3(c.single_ref)
    &&& zero2(c.comp_ref)
    &&& zero2(c.skip)
    &&& zero1(c.mv_joint)
    &&& zero2(c.mv_sign)
    &&& zero2(c.mv_class)
    &&& zero2(c.mv_class0_bit)
    &&& zero3(c.mv_class0_fr)
    &&& zero2(c.mv_class0_hp)
    &&& zero3(c.mv_bits)
    &&& zero2(c.mv_fr)
    &&& zero2(c.mv_hp)
    &&& zero6(c.token)
    &&& zero6(c.more_coefs)
}

/// Every counter of `s` is the sum of those of `a` and `b`, modulo `2^32`.
pub open spec fn counts_sum(a: Counts, b: Counts, s: Counts) -> bool {
    &&& sum2(a.intra_mode, b.intra_mode, s.intra_mode)
    &&& sum2(a.uv_mode, b.uv_mode, s.uv_mode)
    &&& sum2(a.partition, b.partition, s.partition)
    &&& sum2(a.interp_filter, b.interp_filter, s.interp_filter)
    &&& sum2(a.inter_mode, b.inter_mode, s.inter_mode)
    &&& sum3(a.tx_size, b.tx_size, s.tx_size)
    &&& sum2(a.is_inter, b.is_inter, s.is_inter)
    &&& sum2(a.comp_mode, b.comp_mode, s.comp_mode)
    &&& sum3(a.single_ref, b.single_ref, s.single_ref)
    &&& sum2(a.comp_ref, b.comp_ref, s.comp_ref)
    &&& sum2(a.skip, b.skip, s.skip)
    &&& sum1(a.mv_joint, b.mv_joint, s.mv_joint)
    &&& sum2(a.mv_sign, b.mv_sign, s.mv_sign)
    &&& sum2(a.mv_class, b.mv_class, s.mv_class)
    &&& sum2(a.mv_class0_bit, b.mv_class0_bit, s.mv_class0_bit)
    &&& sum3(a.mv_class0_fr, b.mv_class0_fr, s.mv_class0_fr)
    &&& sum2(a.mv_class0_hp, b.mv_class0_hp, s.mv_class0_hp)
    &&& sum3(a.mv_bits, b.mv_bits, s.mv_bits)
    &&& sum2(a.mv_fr, b.mv_fr, s.mv_fr)
    &&& sum2(a.mv_hp, b.mv_hp, s.mv_hp)
    &&& sum6(a.token, b.token, s.token)
    &&& sum6(a.more_coefs, b.more_coefs, s.more_coefs)
}

fn add1<const A: usize>(a: [u32; A], b: &[u32; A]) -> (s: [u32; A])
    ensures
        sum1(a, *b, s),
{
    let mut s: [u32; A] = a;
    for i in 0..A
        invariant
            forall|k: int| 0 <= k < i ==> #[trigger] s[k] == wsum(a[k], b[k]),
            forall|k: int| i <= k < A ==> #[trigger] s[k] == a[k],
    {
        let v: u32 = ((s[i] as u64 + b[i] as u64) % 0x1_0000_0000) as u32;
        s[i] = v;
    }
    s
}

fn add2<const A: usize, const B: usize>(a: [[u32; A]; B], b: &[[u32; A]; B]) -> (s: [[u32; A]; B])
    ensures
        sum2(a, *b, s),
{
    let mut s: [[u32; A]; B] = a;
    for i in 0..B
        invariant
            forall|k: int| 0 <= k < i ==> sum1(a[k], b[k], #[trigger] s[k]),
            forall|k: int| i <= k < B ==> #[trigger] s[k] == a[k],
    {
        let row: [u32; A] = add1(s[i], &b[i]);
        s[i] = row;
    }
    s
}

fn add3<const A: usize, const B: usize, const C: usize>(
    a: [[[u32; A]; B]; C],
    b: &[[[u32; A]; B]; C],
) -> (s: [[[u32; A]; B]; C])
    ensures
        sum3(a, *b, s),
{
    let mut s: [[[u32; A]; B]; C] = a;
    for i in 0..C
        invariant
            forall|k: int| 0 <= k < i ==> sum2(a[k], b[k], #[trigger] s[k]),
            forall|k: int| i <= k < C ==> #[trigger] s[k] == a[k],
    {
        let row: [[u32; A]; B] = add2(s[i], &b[i]);
        s[i] = row;
    }
    s
}

fn add4<const A: usize, const B: usize, const C: usize, const D: usize>(
    a: [[[[u32; A]; B]; C]; D],
    b: &[[[[u32; A]; B]; C]; D],
) -> (s: [[[[u32; A]; B]; C]; D])
    ensures
        sum4(a, *b, s),
{
    let mut s: [[[[u32; A]; B]; C]; D] = a;
    for i in 0..D
        invariant
            forall|k: int| 0 <= k < i ==> sum3(a[k], b[k], #[trigger] s[k]),
            forall|k: int| i <= k < D ==> #[trigger] s[k] == a[k],
    {
        let row: [[[u32; A]; B]; C] = add3(s[i], &b[i]);
        s[i] = row;
    }
    s
}

fn add5<const A: usize, const B: usize, const C: usize, const D: usize, const E: usize>(
    a: [[[[[u32; A]; B]; C]; D]; E],
    b: &[[[[[u32; A]; B]; C]; D]; E],
) -> (s: [[[[[u32; A]; B]; C]; D]; E])
    ensures
        sum5(a, *b, s),
{
    let mut s: [[[[[u32; A]; B]; C]; D]; E] = a;
    for i in 0..E
        invariant
            forall|k: int| 0 <= k < i ==> sum4(a[k], b[k], #[trigger] s[k]),
            forall|k: int| i <= k < E ==> #[trigger] s[k] == a[k],
    {
        let row: [[[[u32; A]; B]; C]; D] = add4(s[i], &b[i]);
        s[i] = row;
    }
    s
}

fn add6<
    const A: usize,
    const B: usize,
    const C: usize,
    const D: usize,
    const E: usize,
    const F: usize,
>(a: [[[[[[u32; A]; B]; C]; D]; E]; F], b: &[[[[[[u32; A]; B]; C]; D]; E]; F]) -> (s: [[[[[[u32; A]; B]; C]; D]; E]; F])
    ensures
        sum6(a, *b, s),
{
    let mut s: [[[[[[u32; A]; B]; C]; D]; E]; F] = a;
    for i in 0..F
        invariant
            forall|k: int| 0 <= k < i ==> sum5(a[k], b[k], #[trigger] s[k]),
            forall|k: int| i <= k < F ==> #[trigger] s[k] == a[k],
    {
        let row: [[[[[u32; A]; B]; C]; D]; E] = add5(s[i], &b[i]);
        s[i] = row;
    }
    s
}

impl Default for Counts {
    fn default() -> (r: Self)
        ensures
            counts_zero(r),
    {
        Self::new()
    }
}

impl Counts {
    /// All counters at 0.
    pub fn new() -> (r: Self)
        ensures
            counts_zero(r),
    {
        Counts {
            intra_mode: [[0; 10]; 4],
            uv_mode: [[0; 10]; 10],
            partition: [[0; 4]; 16],
            interp_filter: [[0; 3]; 4],
            inter_mode: [[0; 4]; 7],
            tx_size: [[[0; 4]; 2]; 4],
            is_inter: [[0; 2]; 4],
            comp_mode: [[0; 2]; 5],
            single_ref: [[[0; 2]; 2]; 5],
            comp_ref: [[0; 2]; 5],
            skip: [[0; 2]; 3],
            mv_joint: [0; 4],
            mv_sign: [[0; 2]; 2],
            mv_class: [[0; 11]; 2],
            mv_class0_bit: [[0; 2]; 2],
            mv_class0_fr: [[[0; 4]; 2]; 2],
            mv_class0_hp: [[0; 2]; 2],
            mv_bits: [[[0; 2]; 10]; 2],
            mv_fr: [[0; 4]; 2],
            mv_hp: [[0; 2]; 2],
            token: [[[[[[0; 3]; 6]; 6]; 2]; 2]; 4],
            more_coefs: [[[[[[0; 2]; 6]; 6]; 2]; 2]; 4],
        }
    }

    /// Adds every counter of `other`, modulo `2^32`.
    pub fn add_assign(&mut self, other: &Counts)
        ensures
            counts_sum(*old(self), *other, *final(self)),
    {
        self.intra_mode = add2(self.intra_mode, &other.intra_mode);
        self.uv_mode = add2(self.uv_mode, &other.uv_mode);
        self.partition = add2(self.partition, &other.partition);
        self.interp_filter = add2(self.interp_filter, &other.interp_filter);
        self.inter_mode = add2(self.inter_mode, &other.inter_mode);
        self.tx_size = add3(self.tx_size, &other.tx_size);
        self.is_inter = add2(self.is_inter, &other.is_inter);
        self.comp_mode = add2(self.comp_mode, &other.comp_mode);
        self.single_ref = add3(self.single_ref, &other.single_ref);
        self.comp_ref = add2(self.comp_ref, &other.comp_ref);
        self.skip = add2(self.skip, &other.skip);
        self.mv_joint = add1(self.mv_joint, &other.mv_joint);
        self.mv_sign = add2(self.mv_sign, &other.mv_sign);
        self.mv_class = add2(self.mv_class, &other.mv_class);
        self.mv_class0_bit = add2(self.mv_class0_bit, &other.mv_class0_bit);
        self.mv_class0_fr = add3(self.mv_class0_fr, &other.mv_class0_fr);
        self.mv_class0_hp = add2(self.mv_class0_hp, &other.mv_class0_hp);
        self.mv_bits = add3(self.mv_bits, &other.mv_bits);
        self.mv_fr = add2(self.mv_fr, &other.mv_fr);
        self.mv_hp = add2(self.mv_hp, &other.mv_hp);
        self.token = add6(self.token, &other.token);
        self.more_coefs = add6(self.more_coefs, &other.more_coefs);
    }
}

/// Adding up counters does not depend on the order of the two.
pub proof fn lemma_counts_sum_commutes(a: Counts, b: Counts, s: Counts)
    requires
        counts_sum(a, b, s),
    ensures
        counts_sum(b, a, s),
{
}

proof fn lemma_assoc1<const A: usize>(
    a: [u32; A],
    b: [u32; A],
    c: [u32; A],
    ab: [u32; A],
    bc: [u32; A],
    s: [u32; A],
)
    requires
        sum1(a, b, ab),
        sum1(b, c, bc),
        sum1(ab, c, s),
    ensures
        sum1(a, bc, s),
{
}

proof fn lemma_assoc2<const A: usize, const B: usize>(
    a: [[u32; A]; B],
    b: [[u32; A]; B],
    c: [[u32; A]; B],
    ab: [[u32; A]; B],
    bc: [[u32; A]; B],
    s: [[u32; A]; B],
)
    requires
        sum2(a, b, ab),
        sum2(b, c, bc),
        sum2(ab, c, s),
    ensures
        sum2(a, bc, s),
{
    assert forall|i: int| 0 <= i < B implies sum1(a[i], bc[i], #[trigger] s[i]) by {
        assert(sum1(ab[i], c[i], s[i]));
        assert(sum1(a[i], b[i], ab[i]));
        assert(sum1(b[i], c[i], bc[i]));
        lemma_assoc1(a[i], b[i], c[i], ab[i], bc[i], s[i]);
    }
}

proof fn lemma_assoc3<const A: usize, const B: usize, const C: usize>(
    a: [[[u32; A]; B]; C],
    b: [[[u32; A]; B]; C],
    c: [[[u32; A]; B]; C],
    ab: [[[u32; A]; B]; C],
    bc: [[[u32; A]; B]; C],
    s: [[[u32; A]; B]; C],
)
    requires
        sum3(a, b, ab),
        sum3(b, c, bc),
        sum3(ab, c, s),
    ensures
        sum3(a, bc, s),
{
    assert forall|i: int| 0 <= i < C implies sum2(a[i], bc[i], #[trigger] s[i]) by {
        assert(sum2(ab[i], c[i], s[i]));
        assert(sum2(a[i], b[i], ab[i]));
        assert(sum2(b[i], c[i], bc[i]));
        lemma_assoc2(a[i], b[i], c[i], ab[i], bc[i], s[i]);
    }
}

proof fn lemma_assoc4<const A: usize, const B: usize, const C: usize, const D: usize>(
    a: [[[[u32; A]; B]; C]; D],
    b: [[[[u32; A]; B]; C]; D],
    c: [[[[u32; A]; B]; C]; D],
    ab: [[[[u32; A]; B]; C]; D],
    bc: [[[[u32; A]; B]; C]; D],
    s: [[[[u32; A]; B]; C]; D],
)
    requires
        sum4(a, b, ab),
        sum4(b, c, bc),
        sum4(ab, c, s),
    ensures
        sum4(a, bc, s),
{
    assert forall|i: int| 0 <= i < D implies sum3(a[i], bc[i], #[trigger] s[i]) by {
        assert(sum3(ab[i], c[i], s[i]));
        assert(sum3(a[i], b[i], ab[i]));
        assert(sum3(b[i], c[i], bc[i]));
        lemma_assoc3(a[i], b[i], c[i], ab[i], bc[i], s[i]);
    }
}

proof fn lemma_assoc5<const A: usize, const B: usize, const C: usize, const D: usize, const E: usize>(
    a: [[[[[u32; A]; B]; C]; D]; E],
    b: [[[[[u32; A]; B]; C]; D]; E],
    c: [[[[[u32; A]; B]; C]; D]; E],
    ab: [[[[[u32; A]; B]; C]; D]; E],
    bc: [[[[[u32; A]; B]; C]; D]; E],
    s: [[[[[u32; A]; B]; C]; D]; E],
)
    requires
        sum5(a, b, ab),
        sum5(b, c, bc),
        sum5(ab, c, s),
    ensures
        sum5(a, bc, s),
{
    assert forall|i: int| 0 <= i < E implies sum4(a[i], bc[i], #[trigger] s[i]) by {
        assert(sum4(ab[i], c[i], s[i]));
        assert(sum4(a[i], b[i], ab[i]));
        assert(sum4(b[i], c[i], bc[i]));
        lemma_assoc4(a[i], b[i], c[i], ab[i], bc[i], s[i]);
    }
}

proof fn lemma_assoc6<const A: usize, const B: usize, const C: usize, const D: usize, const E: usize, const F: usize>(
    a: [[[[[[u32; A]; B]; C]; D]; E]; F],
    b: [[[[[[u32; A]; B]; C]; D]; E]; F],
    c: [[[[[[u32; A]; B]; C]; D]; E]; F],
    ab: [[[[[[u32; A]; B]; C]; D]; E]; F],
    bc: [[[[[[u32; A]; B]; C]; D]; E]; F],
    s: [[[[[[u32; A]; B]; C]; D]; E]; F],
)
    requires
        sum6(a, b, ab),
        sum6(b, c, bc),
        sum6(ab, c, s),
    ensures
        sum6(a, bc, s),
{
    assert forall|i: int| 0 <= i < F implies sum5(a[i], bc[i], #[trigger] s[i]) by {
        assert(sum5(ab[i], c[i], s[i]));
        assert(sum5(a[i], b[i], ab[i]));
        assert(sum5(b[i], c[i], bc[i]));
        lemma_assoc5(a[i], b[i], c[i], ab[i], bc[i], s[i]);
    }
}

/// Adding up counters does not depend on how they are grouped.
pub proof fn lemma_counts_sum_associates(
    a: Counts,
    b: Counts,
    c: Counts,
    ab: Counts,
    bc: Counts,
    s: Counts,
)
    requires
        counts_sum(a, b, ab),
        counts_sum(b, c, bc),
        counts_sum(ab, c, s),
    ensures
        counts_sum(a, bc, s),
{
    lemma_assoc2(
        a.intra_mode,
        b.intra_mode,
        c.intra_mode,
        ab.intra_mode,
        bc.intra_mode,
        s.intra_mode,
    );
    lemma_assoc2(a.uv_mode, b.uv_mode, c.uv_mode, ab.uv_mode, bc.uv_mode, s.uv_mode);
    lemma_assoc2(a.partition, b.partition, c.partition, ab.partition, bc.partition, s.partition);
    lemma_assoc2(
        a.interp_filter,
        b.interp_filter,
        c.interp_filter,
        ab.interp_filter,
        bc.interp_filter,
        s.interp_filter,
    );
    lemma_assoc2(
        a.inter_mode,
        b.inter_mode,
        c.inter_mode,
        ab.inter_mode,
        bc.inter_mode,
        s.inter_mode,
    );
    lemma_assoc3(a.tx_size, b.tx_size, c.tx_size, ab.tx_size, bc.tx_size, s.tx_size);
    lemma_assoc2(a.is_inter, b.is_inter, c.is_inter, ab.is_inter, bc.is_inter, s.is_inter);
    lemma_assoc2(a.comp_mode, b.comp_mode, c.comp_mode, ab.comp_mode, bc.comp_mode, s.comp_mode);
    lemma_assoc3(
        a.single_ref,
        b.single_ref,
        c.single_ref,
        ab.single_ref,
        bc.single_ref,
        s.single_ref,
    );
    lemma_assoc2(a.comp_ref, b.comp_ref, c.comp_ref, ab.comp_ref, bc.comp_ref, s.comp_ref);
    lemma_assoc2(a.skip, b.skip, c.skip, ab.skip, bc.skip, s.skip);
    lemma_assoc1(a.mv_joint, b.mv_joint, c.mv_joint, ab.mv_joint, bc.mv_joint, s.mv_joint);
    lemma_assoc2(a.mv_sign, b.mv_sign, c.mv_sign, ab.mv_sign, bc.mv_sign, s.mv_sign);
    lemma_assoc2(a.mv_class, b.mv_class, c.mv_class, ab.mv_class, bc.mv_class, s.mv_class);
    lemma_assoc2(
        a.mv_class0_bit,
        b.mv_class0_bit,
        c.mv_class0_bit,
        ab.mv_class0_bit,
        bc.mv_class0_bit,
        s.mv_class0_bit,
    );
    lemma_assoc3(
        a.mv_class0_fr,
        b.mv_class0_fr,
        c.mv_class0_fr,
        ab.mv_class0_fr,
        bc.mv_class0_fr,
        s.mv_class0_fr,
    );
    lemma_assoc2(
        a.mv_class0_hp,
        b.mv_class0_hp,
        c.mv_class0_hp,
        ab.mv_class0_hp,
        bc.mv_class0_hp,
        s.mv_class0_hp,
    );
    lemma_assoc3(a.mv_bits, b.mv_bits, c.mv_bits, ab.mv_bits, bc.mv_bits, s.mv_bits);
    lemma_assoc2(a.mv_fr, b.mv_fr, c.mv_fr, ab.mv_fr, bc.mv_fr, s.mv_fr);
    lemma_assoc2(a.mv_hp, b.mv_hp, c.mv_hp, ab.mv_hp, bc.mv_hp, s.mv_hp);
    lemma_assoc6(a.token, b.token, c.token, ab.token, bc.token, s.token);
    lemma_assoc6(
        a.more_coefs,
        b.more_coefs,
        c.more_coefs,
        ab.more_coefs,
        bc.more_coefs,
        s.more_coefs,
    );
}

// ---------------------------------------------------------------------------
// Merging counts into probabilities.
// ---------------------------------------------------------------------------

/// The probability that two counts suggest, kept within 1 to 255.
pub open spec fn observed_prob(ct0: int, ct1: int) -> int {
    let den = ct0 + ct1;
    if den == 0 {
        128
    } else {
        spec_clip3(1, 255, (ct0 * 256 + den / 2) / den)
    }
}

/// How much of 256 the observed probability weighs: in proportion to the number
/// of observations, up to `count_sat` of them.
pub open spec fn update_weight(den: int, count_sat: int, max_update_factor: int) -> int {
    (max_update_factor * if den < count_sat { den } else { count_sat }) / count_sat
}

/// The weighted mean of a probability and the observed one, rounded.
pub open spec fn merged_prob(
    pre_prob: u8,
    ct0: int,
    ct1: int,
    count_sat: int,
    max_update_factor: int,
) -> int {
    let factor = update_weight(ct0 + ct1, count_sat, max_update_factor);
    (pre_prob * (256 - factor) + observed_prob(ct0, ct1) * factor + 128) / 256
}

/// The observed probability is a probability.
proof fn lemma_observed_prob_range(ct0: int, ct1: int)
    ensures
        1 <= observed_prob(ct0, ct1) <= 255,
{
}

proof fn lemma_update_weight_range(den: int, count_sat: int, max_update_factor: int)
    requires
        0 <= den,
        0 < count_sat,
        0 <= max_update_factor,
    ensures
        0 <= update_weight(den, count_sat, max_update_factor) <= max_update_factor,
        den == 0 ==> update_weight(den, count_sat, max_update_factor) == 0,
        den >= count_sat ==> update_weight(den, count_sat, max_update_factor) == max_update_factor,
{
    let count = if den < count_sat { den } else { count_sat };
    assert(0 <= max_update_factor * count <= max_update_factor * count_sat) by (nonlinear_arith)
        requires
            0 <= count <= count_sat,
            0 <= max_update_factor,
    ;
    vstd::arithmetic::div_mod::lemma_div_is_ordered(
        max_update_factor * count,
        max_update_factor * count_sat,
        count_sat,
    );
    vstd::arithmetic::div_mod::lemma_div_multiples_vanish(max_update_factor, count_sat);
    assert(max_update_factor * count_sat == count_sat * max_update_factor) by (nonlinear_arith);
    vstd::arithmetic::div_mod::lemma_div_pos_is_pos(max_update_factor * count, count_sat);
    if den == 0 {
        assert(max_update_factor * 0 == 0);
        vstd::arithmetic::div_mod::lemma_div_basics(count_sat);
    }
}

/// A merged probability stays between 0 and 255, and not 0 where it was not 0.
/// With no observations it stays as it is.
pub proof fn lemma_merged_prob_range(
    pre_prob: u8,
    ct0: int,
    ct1: int,
    count_sat: int,
    max_update_factor: int,
)
    requires
        0 <= ct0,
        0 <= ct1,
        0 < count_sat,
        0 <= max_update_factor <= 256,
    ensures
        0 <= merged_prob(pre_prob, ct0, ct1, count_sat, max_update_factor) <= 255,
        pre_prob >= 1 ==> merged_prob(pre_prob, ct0, ct1, count_sat, max_update_factor) >= 1,
        ct0 + ct1 == 0 ==> merged_prob(pre_prob, ct0, ct1, count_sat, max_update_factor)
            == pre_prob,
{
    let f = update_weight(ct0 + ct1, count_sat, max_update_factor);
    let o = observed_prob(ct0, ct1);
    lemma_update_weight_range(ct0 + ct1, count_sat, max_update_factor);
    lemma_observed_prob_range(ct0, ct1);
    assert(0 <= pre_prob * (256 - f) <= 255 * (256 - f)) by (nonlinear_arith)
        requires
            0 <= pre_prob <= 255,
            0 <= f <= 256,
    ;
    assert(f <= o * f <= 255 * f) by (nonlinear_arith)
        requires
            1 <= o <= 255,
            0 <= f,
    ;
    assert(pre_prob >= 1 ==> pre_prob * (256 - f) >= 256 - f) by (nonlinear_arith)
        requires
            0 <= pre_prob <= 255,
            0 <= f <= 256,
    ;
    if ct0 + ct1 == 0 {
        assert(pre_prob * (256 - f) == pre_prob * 256) by (nonlinear_arith)
            requires
                f == 0,
        ;
        assert(o * f == 0) by (nonlinear_arith)
            requires
                f == 0,
        ;
    }
}

/// A merged probability lies between the old one and the observed one.
pub proof fn lemma_merged_prob_between(
    pre_prob: u8,
    ct0: int,
    ct1: int,
    count_sat: int,
    max_update_factor: int,
)
    requires
        0 <= ct0,
        0 <= ct1,
        0 < count_sat,
        0 <= max_update_factor <= 256,
    ensures
        ({
            let merged = merged_prob(pre_prob, ct0, ct1, count_sat, max_update_factor);
            let observed = observed_prob(ct0, ct1);
            if pre_prob <= observed {
                pre_prob <= merged <= observed
            } else {
                observed <= merged <= pre_prob
            }
        }),
{
    let f = update_weight(ct0 + ct1, count_sat, max_update_factor);
    let o = observed_prob(ct0, ct1);
    let m = pre_prob as int;
    lemma_update_weight_range(ct0 + ct1, count_sat, max_update_factor);
    let total = m * (256 - f) + o * f;
    assert(total == 256 * m + (o - m) * f) by (nonlinear_arith)
        requires
            total == m * (256 - f) + o * f,
    ;
    if m <= o {
        assert(0 <= (o - m) * f <= 256 * (o - m)) by (nonlinear_arith)
            requires
                0 <= o - m,
                0 <= f <= 256,
        ;
    } else {
        assert(256 * (o - m) <= (o - m) * f <= 0) by (nonlinear_arith)
            requires
                o - m <= 0,
                0 <= f <= 256,
        ;
    }
}

/// No sum of counters of a tree goes beyond this.
pub const COUNT_LIMIT: u64 = 0x1_0000_0000_0000;

fn merge_wide(pre_prob: u8, ct0: u64, ct1: u64, count_sat: u32, max_update_factor: u32) -> (p: u8)
    requires
        ct0 <= COUNT_LIMIT,
        ct1 <= COUNT_LIMIT,
        0 < count_sat,
        max_update_factor <= 256,
    ensures
        p == merged_prob(
            pre_prob,
            ct0 as int,
            ct1 as int,
            count_sat as int,
            max_update_factor as int,
        ),
{
    proof {
        lemma_update_weight_range(ct0 + ct1, count_sat as int, max_update_factor as int);
        lemma_observed_prob_range(ct0 as int, ct1 as int);
        lemma_merged_prob_range(
            pre_prob,
            ct0 as int,
            ct1 as int,
            count_sat as int,
            max_update_factor as int,
        );
    }
    let den: u64 = ct0 + ct1;
    let prob: u64 = if den == 0 {
        128
    } else {
        let ratio: u64 = (ct0 * 256 + den / 2) / den;
        if ratio < 1 {
            1
        } else if ratio > 255 {
            255
        } else {
            ratio
        }
    };
    let sat: u64 = count_sat as u64;
    let count: u64 = if den < sat { den } else { sat };
    proof {
        assert(0 <= max_update_factor * count <= 256 * 0xffff_ffff) by (nonlinear_arith)
            requires
                0 <= max_update_factor <= 256,
                0 <= count <= 0xffff_ffff,
        ;
    }
    let factor: u64 = max_update_factor as u64 * count / sat;
    proof {
        assert(0 <= pre_prob * (256 - factor) <= 255 * 256) by (nonlinear_arith)
            requires
                0 <= pre_prob <= 255,
                0 <= factor <= 256,
        ;
        assert(0 <= prob * factor <= 255 * 256) by (nonlinear_arith)
            requires
                0 <= prob <= 255,
                0 <= factor <= 256,
        ;
    }
    ((pre_prob as u64 * (256 - factor) + prob * factor + 128) / 256) as u8
}

/// Moves a probability towards the ratio of two counts.
pub fn merge_prob(
    pre_prob: u8,
    ct0: u32,
    ct1: u32,
    count_sat: u32,
    max_update_factor: u32,
) -> (p: u8)
    requires
        0 < count_sat,
        max_update_factor <= 256,
    ensures
        p == merged_prob(
            pre_prob,
            ct0 as int,
            ct1 as int,
            count_sat as int,
            max_update_factor as int,
        ),
{
    merge_wide(pre_prob, ct0 as u64, ct1 as u64, count_sat, max_update_factor)
}

/// From node `i` of a tree every path reaches a leaf within `depth` steps; each
/// node has a probability and each leaf a counter.
pub open spec fn tree_fits(tree: Seq<i32>, i: int, np: int, nc: int, depth: nat) -> bool
    decreases depth,
{
    depth > 0 && 0 <= i && i + 1 < tree.len() && i / 2 < np && forall|k: int|
        i <= k <= i + 1 ==> {
            &&& #[trigger] tree[k] > -nc
            &&& tree[k] > i32::MIN
            &&& tree[k] > 0 ==> tree_fits(tree, tree[k] as int, np, nc, (depth - 1) as nat)
        }
}

/// How often a symbol below entry `k` of the tree was counted.
pub open spec fn branch_count(tree: Seq<i32>, counts: Seq<u32>, k: int, depth: nat) -> int
    decreases depth,
{
    let s = tree[k];
    if s <= 0 {
        counts[-s] as int
    } else if depth == 0 {
        0
    } else {
        branch_count(tree, counts, s as int, (depth - 1) as nat) + branch_count(
            tree,
            counts,
            s + 1,
            (depth - 1) as nat,
        )
    }
}

/// How often a symbol below node `i` of the tree was counted.
pub open spec fn node_count(tree: Seq<i32>, counts: Seq<u32>, i: int, depth: nat) -> int {
    branch_count(tree, counts, i, depth) + branch_count(tree, counts, i + 1, depth)
}

/// The probabilities after those of the nodes below `i`, and of `i` itself, are
/// merged with the counts of their two branches.
pub open spec fn merged_tree(
    tree: Seq<i32>,
    i: int,
    probs: Seq<u8>,
    counts: Seq<u32>,
    count_sat: int,
    max_update_factor: int,
    depth: nat,
) -> Seq<u8>
    decreases depth,
{
    if depth == 0 {
        probs
    } else {
        let d = (depth - 1) as nat;
        let left = if tree[i] > 0 {
            merged_tree(tree, tree[i] as int, probs, counts, count_sat, max_update_factor, d)
        } else {
            probs
        };
        let both = if tree[i + 1] > 0 {
            merged_tree(tree, tree[i + 1] as int, left, counts, count_sat, max_update_factor, d)
        } else {
            left
        };
        both.update(
            i / 2,
            merged_prob(
                both[i / 2],
                branch_count(tree, counts, i, d),
                branch_count(tree, counts, i + 1, d),
                count_sat,
                max_update_factor,
            ) as u8,
        )
    }
}

/// Depths that both cover a tree give the same counts and probabilities.
proof fn lemma_merged_tree_depth(
    tree: Seq<i32>,
    i: int,
    probs: Seq<u8>,
    counts: Seq<u32>,
    count_sat: int,
    max_update_factor: int,
    d1: nat,
    d2: nat,
)
    requires
        tree_fits(tree, i, probs.len() as int, counts.len() as int, d1),
        tree_fits(tree, i, probs.len() as int, counts.len() as int, d2),
    ensures
        merged_tree(tree, i, probs, counts, count_sat, max_update_factor, d1) == merged_tree(
            tree,
            i,
            probs,
            counts,
            count_sat,
            max_update_factor,
            d2,
        ),
        merged_tree(tree, i, probs, counts, count_sat, max_update_factor, d1).len() == probs.len(),
        branch_count(tree, counts, i, (d1 - 1) as nat) == branch_count(
            tree,
            counts,
            i,
            (d2 - 1) as nat,
        ),
        branch_count(tree, counts, i + 1, (d1 - 1) as nat) == branch_count(
            tree,
            counts,
            i + 1,
            (d2 - 1) as nat,
        ),
    decreases d1,
{
    let e1 = (d1 - 1) as nat;
    let e2 = (d2 - 1) as nat;
    let np = probs.len() as int;
    let nc = counts.len() as int;
    if tree[i] > 0 {
        assert(tree_fits(tree, tree[i] as int, np, nc, e1));
        assert(tree_fits(tree, tree[i] as int, np, nc, e2));
        lemma_merged_tree_depth(
            tree,
            tree[i] as int,
            probs,
            counts,
            count_sat,
            max_update_factor,
            e1,
            e2,
        );
    }
    let left = if tree[i] > 0 {
        merged_tree(tree, tree[i] as int, probs, counts, count_sat, max_update_factor, e1)
    } else {
        probs
    };
    if tree[i + 1] > 0 {
        assert(tree_fits(tree, tree[i + 1] as int, np, nc, e1));
        assert(tree_fits(tree, tree[i + 1] as int, np, nc, e2));
        lemma_merged_tree_depth(
            tree,
            tree[i + 1] as int,
            left,
            counts,
            count_sat,
            max_update_factor,
            e1,
            e2,
        );
    }
}

/// Merging keeps a probability from becoming 0.
pub proof fn lemma_merged_tree_nonzero(
    tree: Seq<i32>,
    i: int,
    probs: Seq<u8>,
    counts: Seq<u32>,
    count_sat: int,
    max_update_factor: int,
    depth: nat,
    k: int,
)
    requires
        0 < count_sat,
        0 <= max_update_factor <= 256,
        tree_fits(tree, i, probs.len() as int, counts.len() as int, depth),
        0 <= k < probs.len(),
        probs[k] >= 1,
    ensures
        merged_tree(tree, i, probs, counts, count_sat, max_update_factor, depth).len()
            == probs.len(),
        merged_tree(tree, i, probs, counts, count_sat, max_update_factor, depth)[k] >= 1,
    decreases depth,
{
    let d = (depth - 1) as nat;
    lemma_branch_count_bound(tree, counts, i, i, probs.len() as int, depth);
    if tree[i] > 0 {
        lemma_merged_tree_nonzero(
            tree,
            tree[i] as int,
            probs,
            counts,
            count_sat,
            max_update_factor,
            d,
            k,
        );
    }
    let left = if tree[i] > 0 {
        merged_tree(tree, tree[i] as int, probs, counts, count_sat, max_update_factor, d)
    } else {
        probs
    };
    if tree[i + 1] > 0 {
        lemma_merged_tree_nonzero(
            tree,
            tree[i + 1] as int,
            left,
            counts,
            count_sat,
            max_update_factor,
            d,
            k,
        );
    }
    let both = if tree[i + 1] > 0 {
        merged_tree(tree, tree[i + 1] as int, left, counts, count_sat, max_update_factor, d)
    } else {
        left
    };
    lemma_merged_prob_range(
        both[i / 2],
        branch_count(tree, counts, i, d),
        branch_count(tree, counts, i + 1, d),
        count_sat,
        max_update_factor,
    );
}

/// A count is not negative.
proof fn lemma_branch_count_bound(
    tree: Seq<i32>,
    counts: Seq<u32>,
    i: int,
    k: int,
    np: int,
    depth: nat,
)
    requires
        tree_fits(tree, i, np, counts.len() as int, depth),
        i <= k <= i + 1,
    ensures
        0 <= branch_count(tree, counts, i, (depth - 1) as nat),
        0 <= branch_count(tree, counts, i + 1, (depth - 1) as nat),
    decreases depth,
{
    let d = (depth - 1) as nat;
    if tree[i] > 0 {
        lemma_branch_count_bound(tree, counts, tree[i] as int, tree[i] as int, np, d);
    }
    if tree[i + 1] > 0 {
        lemma_branch_count_bound(tree, counts, tree[i + 1] as int, tree[i + 1] as int, np, d);
    }
}

/// A tree whose nodes stand at even places, each after the one that leads to
/// it, with a probability for each node and a counter for each leaf.
pub open spec fn tree_ordered(tree: Seq<i32>, np: int, nc: int) -> bool {
    &&& tree.len() % 2 == 0
    &&& tree.len() / 2 <= np
    &&& forall|k: int|
        0 <= k < tree.len() ==> {
            &&& #[trigger] tree[k] > -nc
            &&& tree[k] > i32::MIN
            &&& tree[k] > 0 ==> k < tree[k] && tree[k] % 2 == 0 && tree[k] + 1 < tree.len()
        }
}

proof fn lemma_ordered_tree_fits(tree: Seq<i32>, i: int, np: int, nc: int, depth: nat)
    requires
        tree_ordered(tree, np, nc),
        0 <= i,
        i + 1 < tree.len(),
        i % 2 == 0,
        depth >= (tree.len() - i) / 2,
    ensures
        tree_fits(tree, i, np, nc, depth),
    decreases depth,
{
    assert forall|k: int| i <= k <= i + 1 && #[trigger] tree[k] > 0 implies tree_fits(
        tree,
        tree[k] as int,
        np,
        nc,
        (depth - 1) as nat,
    ) by {
        lemma_ordered_tree_fits(tree, tree[k] as int, np, nc, (depth - 1) as nat);
    }
}

proof fn lemma_branch_count_limit(
    tree: Seq<i32>,
    counts: Seq<u32>,
    k: int,
    i: int,
    np: int,
    depth: nat,
)
    requires
        tree_fits(tree, i, np, counts.len() as int, depth),
        i <= k <= i + 1,
    ensures
        0 <= branch_count(tree, counts, k, (depth - 1) as nat)
            <= vstd::arithmetic::power2::pow2((depth - 1) as nat) * 0x1_0000_0000,
    decreases depth,
{
    let d = (depth - 1) as nat;
    vstd::arithmetic::power2::lemma2_to64();
    vstd::arithmetic::power2::lemma_pow2_pos(d);
    if tree[k] > 0 {
        let c = tree[k] as int;
        assert(tree_fits(tree, c, np, counts.len() as int, d));
        lemma_branch_count_limit(tree, counts, c, c, np, d);
        lemma_branch_count_limit(tree, counts, c + 1, c, np, d);
        vstd::arithmetic::power2::lemma_pow2_unfold(d);
    }
}

/// Merges the counts into the probabilities of the nodes below `i`; `depth`
/// covers the tree.
fn merge_below(
    tree: &[i32],
    i: usize,
    probs: &mut [u8],
    counts: &[u32],
    count_sat: u32,
    max_update_factor: u32,
    Ghost(depth): Ghost<nat>,
) -> (n: u64)
    requires
        0 < count_sat,
        max_update_factor <= 256,
        tree_fits(tree@, i as int, old(probs)@.len() as int, counts@.len() as int, depth),
        node_count(tree@, counts@, i as int, (depth - 1) as nat) <= COUNT_LIMIT,
    ensures
        n == node_count(tree@, counts@, i as int, (depth - 1) as nat),
        final(probs)@ == merged_tree(
            tree@,
            i as int,
            old(probs)@,
            counts@,
            count_sat as int,
            max_update_factor as int,
            depth,
        ),
        final(probs)@.len() == old(probs)@.len(),
    decreases depth,
{
    let ghost d = (depth - 1) as nat;
    let ghost np = probs@.len() as int;
    let ghost nc = counts@.len() as int;
    proof {
        lemma_branch_count_bound(tree@, counts@, i as int, i as int, np, depth);
    }
    let s: i32 = tree[i];
    let left_count: u64 = if s <= 0 {
        counts[(-s) as usize] as u64
    } else {
        assert(tree_fits(tree@, s as int, np, nc, d));
        merge_below(tree, s as usize, probs, counts, count_sat, max_update_factor, Ghost(d))
    };
    let r: i32 = tree[i + 1];
    let right_count: u64 = if r <= 0 {
        counts[(-r) as usize] as u64
    } else {
        assert(tree_fits(tree@, r as int, np, nc, d));
        merge_below(tree, r as usize, probs, counts, count_sat, max_update_factor, Ghost(d))
    };
    let old_prob: u8 = probs[i / 2];
    let new_prob: u8 = merge_wide(old_prob, left_count, right_count, count_sat, max_update_factor);
    probs[i / 2] = new_prob;
    left_count + right_count
}

/// Merges the counts into the probabilities of the nodes of a tree below `i`.
/// Gives the number of symbols counted below `i`.
pub fn merge_probs(
    tree: &[i32],
    i: usize,
    probs: &mut [u8],
    counts: &[u32],
    count_sat: u32,
    max_update_factor: u32,
) -> (n: u64)
    requires
        0 < count_sat,
        max_update_factor <= 256,
        exists|depth: nat|
            #[trigger] tree_fits(
                tree@,
                i as int,
                old(probs)@.len() as int,
                counts@.len() as int,
                depth,
            ) && node_count(tree@, counts@, i as int, (depth - 1) as nat) <= COUNT_LIMIT,
    ensures
        forall|depth: nat|
            #[trigger] tree_fits(
                tree@,
                i as int,
                old(probs)@.len() as int,
                counts@.len() as int,
                depth,
            ) ==> {
                &&& n == node_count(tree@, counts@, i as int, (depth - 1) as nat)
                &&& final(probs)@ == merged_tree(
                    tree@,
                    i as int,
                    old(probs)@,
                    counts@,
                    count_sat as int,
                    max_update_factor as int,
                    depth,
                )
            },
        final(probs)@.len() == old(probs)@.len(),
{
    let ghost depth = choose|depth: nat|
        #[trigger] tree_fits(tree@, i as int, probs@.len() as int, counts@.len() as int, depth)
            && node_count(tree@, counts@, i as int, (depth - 1) as nat) <= COUNT_LIMIT;
    let ghost before = probs@;
    let n: u64 = merge_below(
        tree,
        i,
        probs,
        counts,
        count_sat,
        max_update_factor,
        Ghost(depth),
    );
    proof {
        assert forall|d2: nat| #[trigger]
            tree_fits(tree@, i as int, before.len() as int, counts@.len() as int, d2) implies {
            &&& n == node_count(tree@, counts@, i as int, (d2 - 1) as nat)
            &&& probs@ == merged_tree(
                tree@,
                i as int,
                before,
                counts@,
                count_sat as int,
                max_update_factor as int,
                d2,
            )
        } by {
            lemma_merged_tree_depth(
                tree@,
                i as int,
                before,
                counts@,
                count_sat as int,
                max_update_factor as int,
                depth,
                d2,
            );
        }
    }
    n
}

// ---------------------------------------------------------------------------
// Adaptation.
// ---------------------------------------------------------------------------

/// The probabilities of a tree, adapted to counts.
pub open spec fn adapted_tree(tree: Seq<i32>, probs: Seq<u8>, counts: Seq<u32>) -> Seq<u8> {
    merged_tree(
        tree,
        0,
        probs,
        counts,
        COUNT_SAT as int,
        MAX_UPDATE_FACTOR as int,
        tree.len() / 2,
    )
}

/// The probability of a flag, adapted to the counts of its two values.
pub open spec fn adapted_flag(prob: u8, counts: [u32; 2]) -> u8 {
    merged_prob(
        prob,
        counts[0] as int,
        counts[1] as int,
        COUNT_SAT as int,
        MAX_UPDATE_FACTOR as int,
    ) as u8
}

/// A table of trees, adapted row by row.
pub open spec fn trees_adapted<const N: usize, const C: usize, const M: usize>(
    tree: Seq<i32>,
    before: [[u8; N]; M],
    counts: [[u32; C]; M],
    after: [[u8; N]; M],
) -> bool {
    forall|j: int|
        0 <= j < M ==> (#[trigger] after[j])@ == adapted_tree(tree, before[j]@, counts[j]@)
}

/// A row of flags, adapted one by one.
pub open spec fn flags_adapted<const M: usize>(
    before: [u8; M],
    counts: [[u32; 2]; M],
    after: [u8; M],
) -> bool {
    forall|j: int| 0 <= j < M ==> #[trigger] after[j] == adapted_flag(before[j], counts[j])
}

/// Adapts the probabilities of a tree.
fn adapt_probs<const N: usize, const C: usize>(
    tree: &[i32],
    probs: [u8; N],
    counts: &[u32; C],
) -> (out: [u8;
    N])
    requires
        2 <= tree@.len() <= 20,
        tree_ordered(tree@, N as int, C as int),
    ensures
        out@ == adapted_tree(tree@, probs@, counts@),
        forall|k: int| 0 <= k < N && probs[k] >= 1 ==> #[trigger] out[k] >= 1,
{
    let ghost depth = (tree@.len() / 2) as nat;
    proof {
        lemma_ordered_tree_fits(tree@, 0, N as int, C as int, depth);
        lemma_branch_count_limit(tree@, counts@, 0, 0, N as int, depth);
        lemma_branch_count_limit(tree@, counts@, 1, 0, N as int, depth);
        vstd::arithmetic::power2::lemma2_to64();
        if depth < 10 {
            vstd::arithmetic::power2::lemma_pow2_strictly_increases((depth - 1) as nat, 9);
        }
        assert forall|k: int| 0 <= k < N && probs[k] >= 1 implies adapted_tree(
            tree@,
            probs@,
            counts@,
        )[k] >= 1 by {
            lemma_merged_tree_nonzero(
                tree@,
                0,
                probs@,
                counts@,
                COUNT_SAT as int,
                MAX_UPDATE_FACTOR as int,
                depth,
                k,
            );
        }
    }
    let mut out: [u8; N] = probs;
    let _total: u64 = merge_below(
        tree,
        0,
        &mut out,
        counts.as_slice(),
        COUNT_SAT,
        MAX_UPDATE_FACTOR,
        Ghost(depth),
    );
    out
}

/// Adapts the probability of a flag.
fn adapt_prob(prob: u8, counts: [u32; 2]) -> (p: u8)
    ensures
        p == adapted_flag(prob, counts),
        prob >= 1 ==> p >= 1,
{
    proof {
        lemma_merged_prob_range(
            prob,
            counts[0] as int,
            counts[1] as int,
            COUNT_SAT as int,
            MAX_UPDATE_FACTOR as int,
        );
    }
    merge_prob(prob, counts[0], counts[1], COUNT_SAT, MAX_UPDATE_FACTOR)
}

/// Adapts a table of trees.
fn adapt_trees<const N: usize, const C: usize, const M: usize>(
    tree: &[i32],
    rows: [[u8; N]; M],
    counts: &[[u32; C]; M],
) -> (out: [[u8; N]; M])
    requires
        2 <= tree@.len() <= 20,
        tree_ordered(tree@, N as int, C as int),
    ensures
        trees_adapted(tree@, rows, *counts, out),
        rows_nonzero(rows) ==> rows_nonzero(out),
{
    let mut out: [[u8; N]; M] = rows;
    for j in 0..M
        invariant
            2 <= tree@.len() <= 20,
            tree_ordered(tree@, N as int, C as int),
            forall|k: int|
                0 <= k < j ==> (#[trigger] out[k])@ == adapted_tree(tree@, rows[k]@, counts[k]@),
            forall|k: int| j <= k < M ==> #[trigger] out[k] == rows[k],
            rows_nonzero(rows) ==> rows_nonzero(out),
    {
        let row: [u8; N] = adapt_probs(tree, out[j], &counts[j]);
        out[j] = row;
    }
    out
}

/// Adapts a row of flags.
fn adapt_flags<const M: usize>(row: [u8; M], counts: &[[u32; 2]; M]) -> (out: [u8; M])
    ensures
        flags_adapted(row, *counts, out),
        row_nonzero(row) ==> row_nonzero(out),
{
    let mut out: [u8; M] = row;
    for j in 0..M
        invariant
            forall|k: int| 0 <= k < j ==> #[trigger] out[k] == adapted_flag(row[k], counts[k]),
            forall|k: int| j <= k < M ==> #[trigger] out[k] == row[k],
            row_nonzero(row) ==> row_nonzero(out),
    {
        let p: u8 = adapt_prob(out[j], counts[j]);
        out[j] = p;
    }
    out
}

/// Count at which the adaptation of coefficient probabilities reaches its full
/// rate.
pub const COEF_COUNT_SAT: u32 = 24;

/// One row of coefficient probabilities, adapted: the last two to the token
/// classes, the first to whether more coefficients follow.
pub open spec fn adapted_coef_row(
    probs: Seq<u8>,
    token: Seq<u32>,
    more_coefs: Seq<u32>,
    update_factor: int,
) -> Seq<u8> {
    merged_tree(
        BINARY_TREE@,
        0,
        merged_tree(
            SMALL_TOKEN_TREE@,
            2,
            probs,
            token,
            COEF_COUNT_SAT as int,
            update_factor,
            2,
        ),
        more_coefs,
        COEF_COUNT_SAT as int,
        update_factor,
        1,
    )
}

/// The coefficient probabilities of one plane type and reference type, adapted.
/// Band 0 has three contexts; the unused entries stay.
pub open spec fn bands_adapted(
    before: [[[u8; 3]; 6]; 6],
    token: [[[u32; 3]; 6]; 6],
    more_coefs: [[[u32; 2]; 6]; 6],
    update_factor: int,
    after: [[[u8; 3]; 6]; 6],
) -> bool {
    forall|k: int, l: int|
        0 <= k < 6 && 0 <= l < 6 ==> (#[trigger] after[k][l])@ == if k > 0 || l < 3 {
            adapted_coef_row(before[k][l]@, token[k][l]@, more_coefs[k][l]@, update_factor)
        } else {
            before[k][l]@
        }
}

/// All coefficient probabilities, adapted.
pub open spec fn coefs_adapted(
    before: CoefProbs,
    counts: Counts,
    update_factor: int,
    after: CoefProbs,
) -> bool {
    forall|t: int, i: int, j: int|
        0 <= t < 4 && 0 <= i < 2 && 0 <= j < 2 ==> bands_adapted(
            before[t][i][j],
            counts.token[t][i][j],
            counts.more_coefs[t][i][j],
            update_factor,
            #[trigger] after[t][i][j],
        )
}

fn adapt_coef_row(
    row: [u8; 3],
    token: &[u32; 3],
    more_coefs: &[u32; 2],
    update_factor: u32,
) -> (out: [u8;
    3])
    requires
        update_factor <= 256,
    ensures
        out@ == adapted_coef_row(row@, token@, more_coefs@, update_factor as int),
        row_nonzero(row) ==> row_nonzero(out),
{
    proof {
        lemma_ordered_tree_fits(SMALL_TOKEN_TREE@, 2, 3, 3, 2);
        lemma_ordered_tree_fits(BINARY_TREE@, 0, 3, 2, 1);
        lemma_branch_count_limit(SMALL_TOKEN_TREE@, token@, 2, 2, 3, 2);
        lemma_branch_count_limit(SMALL_TOKEN_TREE@, token@, 3, 2, 3, 2);
        lemma_branch_count_limit(BINARY_TREE@, more_coefs@, 0, 0, 3, 1);
        lemma_branch_count_limit(BINARY_TREE@, more_coefs@, 1, 0, 3, 1);
        vstd::arithmetic::power2::lemma2_to64();
    }
    let mut out: [u8; 3] = row;
    let small_tree: [i32; 6] = SMALL_TOKEN_TREE;
    let binary_tree: [i32; 2] = BINARY_TREE;
    let _tokens: u64 = merge_below(
        small_tree.as_slice(),
        2,
        &mut out,
        token.as_slice(),
        COEF_COUNT_SAT,
        update_factor,
        Ghost(2),
    );
    proof {
        if row_nonzero(row) {
            assert forall|k: int| 0 <= k < 3 implies #[trigger] out[k] >= 1 by {
                assert(row[k] >= 1);
                lemma_merged_tree_nonzero(
                    SMALL_TOKEN_TREE@,
                    2,
                    row@,
                    token@,
                    COEF_COUNT_SAT as int,
                    update_factor as int,
                    2,
                    k,
                );
            }
            assert forall|k: int| 0 <= k < 3 implies adapted_coef_row(
                row@,
                token@,
                more_coefs@,
                update_factor as int,
            )[k] >= 1 by {
                lemma_merged_tree_nonzero(
                    BINARY_TREE@,
                    0,
                    out@,
                    more_coefs@,
                    COEF_COUNT_SAT as int,
                    update_factor as int,
                    1,
                    k,
                );
            }
        }
    }
    let _more: u64 = merge_below(
        binary_tree.as_slice(),
        0,
        &mut out,
        more_coefs.as_slice(),
        COEF_COUNT_SAT,
        update_factor,
        Ghost(1),
    );
    out
}

fn adapt_bands(
    bands: [[[u8; 3]; 6]; 6],
    token: &[[[u32; 3]; 6]; 6],
    more_coefs: &[[[u32; 2]; 6]; 6],
    update_factor: u32,
) -> (out: [[[u8; 3]; 6]; 6])
    requires
        update_factor <= 256,
    ensures
        bands_adapted(bands, *token, *more_coefs, update_factor as int, out),
        used_nonzero(bands@) ==> used_nonzero(out@),
{
    let mut out: [[[u8; 3]; 6]; 6] = bands;
    for k in 0..6usize
        invariant
            update_factor <= 256,
            forall|k2: int| k <= k2 < 6 ==> #[trigger] out[k2] == bands[k2],
            forall|k2: int, l: int|
                0 <= k2 < k && 0 <= l < 6 ==> (#[trigger] out[k2][l])@ == if k2 > 0 || l < 3 {
                    adapted_coef_row(
                        bands[k2][l]@,
                        token[k2][l]@,
                        more_coefs[k2][l]@,
                        update_factor as int,
                    )
                } else {
                    bands[k2][l]@
                },
            used_nonzero(bands@) ==> used_nonzero(out@),
    {
        let max_l: usize = if k == 0 { 3 } else { 6 };
        let mut band: [[u8; 3]; 6] = out[k];
        for l in 0..max_l
            invariant
                k < 6,
                update_factor <= 256,
                max_l == if k == 0 { 3usize } else { 6usize },
                forall|l2: int| l <= l2 < 6 ==> #[trigger] band[l2] == bands[k as int][l2],
                forall|l2: int|
                    0 <= l2 < l ==> (#[trigger] band[l2])@ == adapted_coef_row(
                        bands[k as int][l2]@,
                        token[k as int][l2]@,
                        more_coefs[k as int][l2]@,
                        update_factor as int,
                    ),
                used_nonzero(bands@) ==> forall|l2: int| 0 <= l2 < max_l ==> row_nonzero(#[trigger] band[l2]),
        {
            assert(used_nonzero(bands@) ==> row_nonzero(band[l as int]));
            let row: [u8; 3] = adapt_coef_row(band[l], &token[k][l], &more_coefs[k][l], update_factor);
            band[l] = row;
        }
        out[k] = band;
    }
    out
}

fn adapt_sizes(
    tables: [[[[[u8; 3]; 6]; 6]; 2]; 2],
    token: &[[[[[u32; 3]; 6]; 6]; 2]; 2],
    more_coefs: &[[[[[u32; 2]; 6]; 6]; 2]; 2],
    update_factor: u32,
) -> (out: [[[[[u8; 3]; 6]; 6]; 2]; 2])
    requires
        update_factor <= 256,
    ensures
        forall|i: int, j: int|
            0 <= i < 2 && 0 <= j < 2 ==> bands_adapted(
                tables[i][j],
                token[i][j],
                more_coefs[i][j],
                update_factor as int,
                #[trigger] out[i][j],
            ) && (used_nonzero(tables[i][j]@) ==> used_nonzero(out[i][j]@)),
{
    [
        [
            adapt_bands(tables[0][0], &token[0][0], &more_coefs[0][0], update_factor),
            adapt_bands(tables[0][1], &token[0][1], &more_coefs[0][1], update_factor),
        ],
        [
            adapt_bands(tables[1][0], &token[1][0], &more_coefs[1][0], update_factor),
            adapt_bands(tables[1][1], &token[1][1], &more_coefs[1][1], update_factor),
        ],
    ]
}

/// Adapts the coefficient probabilities to the counts. `update_factor` is the
/// full rate of adaptation, out of 256.
pub fn adapt_coef_probs(coef_probs: &mut CoefProbs, counts: &Counts, update_factor: u32)
    requires
        update_factor <= 256,
    ensures
        coefs_adapted(*old(coef_probs), *counts, update_factor as int, *final(coef_probs)),
        coef_nonzero(*old(coef_probs)) ==> coef_nonzero(*final(coef_probs)),
{
    let before: CoefProbs = *coef_probs;
    let mut out: CoefProbs = before;
    for t in 0..4usize
        invariant
            update_factor <= 256,
            forall|t2: int| t <= t2 < 4 ==> #[trigger] out[t2] == before[t2],
            forall|t2: int, i: int, j: int|
                0 <= t2 < t && 0 <= i < 2 && 0 <= j < 2 ==> bands_adapted(
                    before[t2][i][j],
                    counts.token[t2][i][j],
                    counts.more_coefs[t2][i][j],
                    update_factor as int,
                    #[trigger] out[t2][i][j],
                ) && (used_nonzero(before[t2][i][j]@) ==> used_nonzero(out[t2][i][j]@)),
    {
        let tables: [[[[[u8; 3]; 6]; 6]; 2]; 2] = adapt_sizes(
            out[t],
            &counts.token[t],
            &counts.more_coefs[t],
            update_factor,
        );
        out[t] = tables;
    }
    *coef_probs = out;
    proof {
        if coef_nonzero(before) {
            assert forall|t: int, i: int, j: int|
                0 <= t < 4 && 0 <= i < 2 && 0 <= j < 2 implies used_nonzero(
                #[trigger] out[t][i][j]@,
            ) by {
                assert(used_nonzero(before[t][i][j]@));
            }
        }
    }
}

/// What adaptation makes of the other probabilities. Interpolation filters are
/// adapted only where blocks choose them, transform sizes likewise, and the
/// high-precision bits only where they are in use.
pub open spec fn noncoefs_adapted(
    b: CompressedHeaderProbs,
    c: Counts,
    interpolation_filter: u8,
    tx_mode: u8,
    hp: bool,
    a: CompressedHeaderProbs,
) -> bool {
    &&& a.coef_probs == b.coef_probs
    &&& flags_adapted(b.is_inter_prob, c.is_inter, a.is_inter_prob)
    &&& flags_adapted(b.comp_mode_prob, c.comp_mode, a.comp_mode_prob)
    &&& flags_adapted(b.comp_ref_prob, c.comp_ref, a.comp_ref_prob)
    &&& forall|i: int|
        0 <= i < 5 ==> flags_adapted(
            b.single_ref_prob[i],
            c.single_ref[i],
            #[trigger] a.single_ref_prob[i],
        )
    &&& trees_adapted(INTER_MODE_TREE@, b.inter_mode_probs, c.inter_mode, a.inter_mode_probs)
    &&& trees_adapted(INTRA_MODE_TREE@, b.y_mode_probs, c.intra_mode, a.y_mode_probs)
    &&& trees_adapted(INTRA_MODE_TREE@, b.uv_mode_probs, c.uv_mode, a.uv_mode_probs)
    &&& trees_adapted(PARTITION_TREE@, b.partition_probs, c.partition, a.partition_probs)
    &&& flags_adapted(b.skip_prob, c.skip, a.skip_prob)
    &&& if interpolation_filter == SWITCHABLE {
        trees_adapted(
            INTERP_FILTER_TREE@,
            b.interp_filter_probs,
            c.interp_filter,
            a.interp_filter_probs,
        )
    } else {
        a.interp_filter_probs == b.interp_filter_probs
    }
    &&& if tx_mode == TX_MODE_SELECT {
        &&& a.tx_probs[0] == b.tx_probs[0]
        &&& trees_adapted(TX_SIZE_8_TREE@, b.tx_probs[1], c.tx_size[1], a.tx_probs[1])
        &&& trees_adapted(TX_SIZE_16_TREE@, b.tx_probs[2], c.tx_size[2], a.tx_probs[2])
        &&& trees_adapted(TX_SIZE_32_TREE@, b.tx_probs[3], c.tx_size[3], a.tx_probs[3])
    } else {
        a.tx_probs == b.tx_probs
    }
    &&& a.mv_joint_probs@ == adapted_tree(MV_JOINT_TREE@, b.mv_joint_probs@, c.mv_joint@)
    &&& flags_adapted(b.mv_sign_prob, c.mv_sign, a.mv_sign_prob)
    &&& trees_adapted(MV_CLASS_TREE@, b.mv_class_probs, c.mv_class, a.mv_class_probs)
    &&& flags_adapted(b.mv_class0_bit_prob, c.mv_class0_bit, a.mv_class0_bit_prob)
    &&& forall|i: int|
        0 <= i < 2 ==> flags_adapted(b.mv_bits_prob[i], c.mv_bits[i], #[trigger] a.mv_bits_prob[i])
    &&& forall|i: int|
        0 <= i < 2 ==> trees_adapted(
            MV_FR_TREE@,
            b.mv_class0_fr_probs[i],
            c.mv_class0_fr[i],
            #[trigger] a.mv_class0_fr_probs[i],
        )
    &&& trees_adapted(MV_FR_TREE@, b.mv_fr_probs, c.mv_fr, a.mv_fr_probs)
    &&& if hp {
        &&& flags_adapted(b.mv_class0_hp_prob, c.mv_class0_hp, a.mv_class0_hp_prob)
        &&& flags_adapted(b.mv_hp_prob, c.mv_hp, a.mv_hp_prob)
    } else {
        &&& a.mv_class0_hp_prob == b.mv_class0_hp_prob
        &&& a.mv_hp_prob == b.mv_hp_prob
    }
}

proof fn lemma_trees_ordered()
    ensures
        tree_ordered(INTER_MODE_TREE@, 3, 4),
        tree_ordered(INTRA_MODE_TREE@, 9, 10),
        tree_ordered(PARTITION_TREE@, 3, 4),
        tree_ordered(INTERP_FILTER_TREE@, 2, 3),
        tree_ordered(TX_SIZE_8_TREE@, 3, 4),
        tree_ordered(TX_SIZE_16_TREE@, 3, 4),
        tree_ordered(TX_SIZE_32_TREE@, 3, 4),
        tree_ordered(MV_JOINT_TREE@, 3, 4),
        tree_ordered(MV_CLASS_TREE@, 10, 11),
        tree_ordered(MV_FR_TREE@, 3, 4),
{
}

/// Adapts the transform size probabilities.
fn adapt_tx_probs(
    tx_probs: [[[u8; 3]; 2]; 4],
    tx_size: &[[[u32; 4]; 2]; 4],
) -> (out: [[[u8; 3]; 2]; 4])
    ensures
        out[0] == tx_probs[0],
        trees_adapted(TX_SIZE_8_TREE@, tx_probs[1], tx_size[1], out[1]),
        trees_adapted(TX_SIZE_16_TREE@, tx_probs[2], tx_size[2], out[2]),
        trees_adapted(TX_SIZE_32_TREE@, tx_probs[3], tx_size[3], out[3]),
        tx_nonzero(tx_probs) ==> tx_nonzero(out),
{
    proof {
        lemma_trees_ordered();
    }
    let tree8: [i32; 2] = TX_SIZE_8_TREE;
    let tree16: [i32; 4] = TX_SIZE_16_TREE;
    let tree32: [i32; 6] = TX_SIZE_32_TREE;
    let row10: [u8; 3] = adapt_probs(tree8.as_slice(), tx_probs[1][0], &tx_size[1][0]);
    let row11: [u8; 3] = adapt_probs(tree8.as_slice(), tx_probs[1][1], &tx_size[1][1]);
    let row20: [u8; 3] = adapt_probs(tree16.as_slice(), tx_probs[2][0], &tx_size[2][0]);
    let row21: [u8; 3] = adapt_probs(tree16.as_slice(), tx_probs[2][1], &tx_size[2][1]);
    let row30: [u8; 3] = adapt_probs(tree32.as_slice(), tx_probs[3][0], &tx_size[3][0]);
    let row31: [u8; 3] = adapt_probs(tree32.as_slice(), tx_probs[3][1], &tx_size[3][1]);
    let out: [[[u8; 3]; 2]; 4] = [tx_probs[0], [row10, row11], [row20, row21], [row30, row31]];
    proof {
        if tx_nonzero(tx_probs) {
            assert forall|s: int, c: int, n: int| 1 <= s < 4 && 0 <= c < 2 && 0 <= n < s implies (
            #[trigger] out[s][c][n]) >= 1 by {
                assert(tx_probs[s][c][n] >= 1);
                assert(out[s][c] == if s == 1 && c == 0 {
                    row10
                } else if s == 1 {
                    row11
                } else if s == 2 && c == 0 {
                    row20
                } else if s == 2 {
                    row21
                } else if c == 0 {
                    row30
                } else {
                    row31
                });
            }
        }
    }
    out
}

/// Adapts all probabilities but those of coefficients to the counts.
#[verifier::rlimit(60)]
#[verifier::spinoff_prover]
pub fn adapt_noncoef_probs(
    probs: &mut CompressedHeaderProbs,
    counts: &Counts,
    interpolation_filter: u8,
    tx_mode: u8,
    allow_high_precision_mv: bool,
)
    ensures
        noncoefs_adapted(
            *old(probs),
            *counts,
            interpolation_filter,
            tx_mode,
            allow_high_precision_mv,
            *final(probs),
        ),
        probs_valid(*old(probs)) ==> probs_valid(*final(probs)),
{
    proof {
        lemma_trees_ordered();
    }
    let inter_mode_tree: [i32; 6] = INTER_MODE_TREE;
    let intra_mode_tree: [i32; 18] = INTRA_MODE_TREE;
    let partition_tree: [i32; 6] = PARTITION_TREE;
    let interp_filter_tree: [i32; 4] = INTERP_FILTER_TREE;
    let mv_joint_tree: [i32; 6] = MV_JOINT_TREE;
    let mv_class_tree: [i32; 20] = MV_CLASS_TREE;
    let mv_fr_tree: [i32; 6] = MV_FR_TREE;
    probs.is_inter_prob = adapt_flags(probs.is_inter_prob, &counts.is_inter);
    probs.comp_mode_prob = adapt_flags(probs.comp_mode_prob, &counts.comp_mode);
    probs.comp_ref_prob = adapt_flags(probs.comp_ref_prob, &counts.comp_ref);
    probs.single_ref_prob = [
        adapt_flags(probs.single_ref_prob[0], &counts.single_ref[0]),
        adapt_flags(probs.single_ref_prob[1], &counts.single_ref[1]),
        adapt_flags(probs.single_ref_prob[2], &counts.single_ref[2]),
        adapt_flags(probs.single_ref_prob[3], &counts.single_ref[3]),
        adapt_flags(probs.single_ref_prob[4], &counts.single_ref[4]),
    ];
    probs.inter_mode_probs = adapt_trees(
        inter_mode_tree.as_slice(),
        probs.inter_mode_probs,
        &counts.inter_mode,
    );
    probs.y_mode_probs = adapt_trees(
        intra_mode_tree.as_slice(),
        probs.y_mode_probs,
        &counts.intra_mode,
    );
    probs.uv_mode_probs = adapt_trees(
        intra_mode_tree.as_slice(),
        probs.uv_mode_probs,
        &counts.uv_mode,
    );
    probs.partition_probs = adapt_trees(
        partition_tree.as_slice(),
        probs.partition_probs,
        &counts.partition,
    );
    probs.skip_prob = adapt_flags(probs.skip_prob, &counts.skip);
    if interpolation_filter == SWITCHABLE {
        probs.interp_filter_probs = adapt_trees(
            interp_filter_tree.as_slice(),
            probs.interp_filter_probs,
            &counts.interp_filter,
        );
    }
    if tx_mode == TX_MODE_SELECT {
        probs.tx_probs = adapt_tx_probs(probs.tx_probs, &counts.tx_size);
    }
    probs.mv_joint_probs = adapt_probs(
        mv_joint_tree.as_slice(),
        probs.mv_joint_probs,
        &counts.mv_joint,
    );
    probs.mv_sign_prob = adapt_flags(probs.mv_sign_prob, &counts.mv_sign);
    probs.mv_class_probs = adapt_trees(
        mv_class_tree.as_slice(),
        probs.mv_class_probs,
        &counts.mv_class,
    );
    probs.mv_class0_bit_prob = adapt_flags(probs.mv_class0_bit_prob, &counts.mv_class0_bit);
    probs.mv_bits_prob = [
        adapt_flags(probs.mv_bits_prob[0], &counts.mv_bits[0]),
        adapt_flags(probs.mv_bits_prob[1], &counts.mv_bits[1]),
    ];
    probs.mv_class0_fr_probs = [
        adapt_trees(mv_fr_tree.as_slice(), probs.mv_class0_fr_probs[0], &counts.mv_class0_fr[0]),
        adapt_trees(mv_fr_tree.as_slice(), probs.mv_class0_fr_probs[1], &counts.mv_class0_fr[1]),
    ];
    probs.mv_fr_probs = adapt_trees(mv_fr_tree.as_slice(), probs.mv_fr_probs, &counts.mv_fr);
    if allow_high_precision_mv {
        probs.mv_class0_hp_prob = adapt_flags(probs.mv_class0_hp_prob, &counts.mv_class0_hp);
        probs.mv_hp_prob = adapt_flags(probs.mv_hp_prob, &counts.mv_hp);
    }
}

} // verus!
