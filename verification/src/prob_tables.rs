//! Syntax element values, tree definitions, conversion tables and the initial
//! probability tables.
//!
//! A tree is an array of nodes: node `n` occupies the entries `n` and `n + 1`,
//! one per branch. A positive entry is the index of the next node, any other
//! entry is a leaf that stands for its negation.

use vstd::prelude::*;
use crate::transform::TxType;

pub mod keyframe;
pub mod coefficients;
pub mod tail;

pub use crate::common::INTRA_FRAME;
pub use self::keyframe::{KF_PARTITION_PROBS, KF_Y_MODE_PROBS, KF_UV_MODE_PROBS};
pub use self::coefficients::DEFAULT_COEF_PROBS;
pub use self::tail::PARETO_TABLE;

verus! {

/// Block sizes, ordered by area.
pub const BLOCK_4X4: u8 = 0;
pub const BLOCK_4X8: u8 = 1;
pub const BLOCK_8X4: u8 = 2;
pub const BLOCK_8X8: u8 = 3;
pub const BLOCK_8X16: u8 = 4;
pub const BLOCK_16X8: u8 = 5;
pub const BLOCK_16X16: u8 = 6;
pub const BLOCK_16X32: u8 = 7;
pub const BLOCK_32X16: u8 = 8;
pub const BLOCK_32X32: u8 = 9;
pub const BLOCK_32X64: u8 = 10;
pub const BLOCK_64X32: u8 = 11;
pub const BLOCK_64X64: u8 = 12;
/// Marks a partition or block-size combination that never occurs.
pub const BLOCK_INVALID: u8 = 0xFF;

/// Ways to partition a block.
pub const PARTITION_NONE: u8 = 0;
pub const PARTITION_HORZ: u8 = 1;
pub const PARTITION_VERT: u8 = 2;
pub const PARTITION_SPLIT: u8 = 3;

/// Transform sizes.
pub const TX_4X4: u8 = 0;
pub const TX_8X8: u8 = 1;
pub const TX_16X16: u8 = 2;
pub const TX_32X32: u8 = 3;

/// Transform modes of a frame.
pub const ONLY_4X4: u8 = 0;
pub const ALLOW_8X8: u8 = 1;
pub const ALLOW_16X16: u8 = 2;
pub const ALLOW_32X32: u8 = 3;
pub const TX_MODE_SELECT: u8 = 4;

/// Intra prediction modes.
pub const DC_PRED: u8 = 0;
pub const V_PRED: u8 = 1;
pub const H_PRED: u8 = 2;
pub const D45_PRED: u8 = 3;
pub const D135_PRED: u8 = 4;
pub const D117_PRED: u8 = 5;
pub const D153_PRED: u8 = 6;
pub const D207_PRED: u8 = 7;
pub const D63_PRED: u8 = 8;
pub const TM_PRED: u8 = 9;

/// Inter prediction modes; they continue the numbering of the intra modes.
pub const NEARESTMV: u8 = 10;
pub const NEARMV: u8 = 11;
pub const ZEROMV: u8 = 12;
pub const NEWMV: u8 = 13;

/// Reference frame types other than intra.
pub const LAST_FRAME: u8 = 1;
pub const GOLDEN_FRAME: u8 = 2;
pub const ALTREF_FRAME: u8 = 3;
/// Second reference of a block that has only one; the same number as the intra type.
pub const REF_NONE: u8 = 0;

/// Interpolation filters.
pub const EIGHTTAP: u8 = 0;
pub const EIGHTTAP_SMOOTH: u8 = 1;
pub const EIGHTTAP_SHARP: u8 = 2;
pub const BILINEAR: u8 = 3;
pub const SWITCHABLE: u8 = 4;

/// Reference modes of a frame.
pub const SINGLE_REFERENCE: u8 = 0;
pub const COMPOUND_REFERENCE: u8 = 1;
pub const REFERENCE_MODE_SELECT: u8 = 2;

/// Which components of a motion vector difference are nonzero.
pub const MV_JOINT_ZERO: u8 = 0;
pub const MV_JOINT_HNZVZ: u8 = 1;
pub const MV_JOINT_HZVNZ: u8 = 2;
pub const MV_JOINT_HNZVNZ: u8 = 3;

/// Number of reference frame slots.
pub const NUM_REF_FRAMES: usize = 8;

/// Log2 of the width of each block size in 4x4 units.
pub const B_WIDTH_LOG2_LOOKUP: [u8; 13] = [0, 0, 1, 1, 1, 2, 2, 2, 3, 3, 3, 4, 4];
/// Log2 of the height of each block size in 4x4 units.
pub const B_HEIGHT_LOG2_LOOKUP: [u8; 13] = [0, 1, 0, 1, 2, 1, 2, 3, 2, 3, 4, 3, 4];
/// Width of each block size in 4x4 units.
pub const NUM_4X4_BLOCKS_WIDE_LOOKUP: [u8; 13] = [1, 1, 2, 2, 2, 4, 4, 4, 8, 8, 8, 16, 16];
/// Height of each block size in 4x4 units.
pub const NUM_4X4_BLOCKS_HIGH_LOOKUP: [u8; 13] = [1, 2, 1, 2, 4, 2, 4, 8, 4, 8, 16, 8, 16];
/// Log2 of the width of each block size in 8x8 units.
pub const MI_WIDTH_LOG2_LOOKUP: [u8; 13] = [0, 0, 0, 0, 0, 1, 1, 1, 2, 2, 2, 3, 3];
/// Width of each block size in 8x8 units, at least 1.
pub const NUM_8X8_BLOCKS_WIDE_LOOKUP: [u8; 13] = [1, 1, 1, 1, 1, 2, 2, 2, 4, 4, 4, 8, 8];
/// Log2 of the height of each block size in 8x8 units.
pub const MI_HEIGHT_LOG2_LOOKUP: [u8; 13] = [0, 0, 0, 0, 1, 0, 1, 2, 1, 2, 3, 2, 3];
/// Height of each block size in 8x8 units, at least 1.
pub const NUM_8X8_BLOCKS_HIGH_LOOKUP: [u8; 13] = [1, 1, 1, 1, 2, 1, 2, 4, 2, 4, 8, 4, 8];

/// Largest transform size of each block size.
pub const MAX_TXSIZE_LOOKUP: [u8; 13] = [
    TX_4X4, TX_4X4, TX_4X4, TX_8X8, TX_8X8, TX_8X8, TX_16X16, TX_16X16, TX_16X16, TX_32X32,
    TX_32X32, TX_32X32, TX_32X32,
];

/// Largest transform size of each transform mode.
pub const TX_MODE_TO_BIGGEST_TX_SIZE: [u8; 5] = [TX_4X4, TX_8X8, TX_16X16, TX_32X32, TX_32X32];

/// The block size that a partition of a block size gives, by partition and block size.
pub const SUBSIZE_LOOKUP: [[u8; 13]; 4] = [
    [
        BLOCK_4X4,
        BLOCK_4X8,
        BLOCK_8X4,
        BLOCK_8X8,
        BLOCK_8X16,
        BLOCK_16X8,
        BLOCK_16X16,
        BLOCK_16X32,
        BLOCK_32X16,
        BLOCK_32X32,
        BLOCK_32X64,
        BLOCK_64X32,
        BLOCK_64X64,
    ],
    [
        BLOCK_INVALID,
        BLOCK_INVALID,
        BLOCK_INVALID,
        BLOCK_8X4,
        BLOCK_INVALID,
        BLOCK_INVALID,
        BLOCK_16X8,
        BLOCK_INVALID,
        BLOCK_INVALID,
        BLOCK_32X16,
        BLOCK_INVALID,
        BLOCK_INVALID,
        BLOCK_64X32,
    ],
    [
        BLOCK_INVALID,
        BLOCK_INVALID,
        BLOCK_INVALID,
        BLOCK_4X8,
        BLOCK_INVALID,
        BLOCK_INVALID,
        BLOCK_8X16,
        BLOCK_INVALID,
        BLOCK_INVALID,
        BLOCK_16X32,
        BLOCK_INVALID,
        BLOCK_INVALID,
        BLOCK_32X64,
    ],
    [
        BLOCK_INVALID,
        BLOCK_INVALID,
        BLOCK_INVALID,
        BLOCK_4X4,
        BLOCK_INVALID,
        BLOCK_INVALID,
        BLOCK_8X8,
        BLOCK_INVALID,
        BLOCK_INVALID,
        BLOCK_16X16,
        BLOCK_INVALID,
        BLOCK_INVALID,
        BLOCK_32X32,
    ],
];

/// Tree of partitions.
pub const PARTITION_TREE: [i32; 6] = [
    0,
    2,
    -1,
    4,
    -2,
    -3,
];
/// Tree of segment ids.
pub const SEGMENT_TREE: [i32; 14] = [2, 4, 6, 8, 10, 12, 0, -1, -2, -3, -4, -5, -6, -7];

/// Tree of intra modes.
pub const INTRA_MODE_TREE: [i32; 18] = [
    0,
    2,
    -9,
    4,
    -1,
    6,
    8,
    12,
    -2,
    10,
    -4,
    -5,
    -3,
    14,
    -8,
    16,
    -6,
    -7,
];

/// Tree of transform sizes up to 32x32.
pub const TX_SIZE_32_TREE: [i32; 6] = [
    0,
    2,
    -1,
    4,
    -2,
    -3,
];
/// Tree of transform sizes up to 16x16.
pub const TX_SIZE_16_TREE: [i32; 4] = [0, 2, -1, -2];
/// Tree of transform sizes up to 8x8.
pub const TX_SIZE_8_TREE: [i32; 2] = [0, -1];

/// Tree of inter modes; a leaf is the mode minus `NEARESTMV`.
pub const INTER_MODE_TREE: [i32; 6] = [
    -2,
    2,
    0,
    4,
    -1,
    -3,
];

/// Tree of the interpolation filters that a block can choose.
pub const INTERP_FILTER_TREE: [i32; 4] = [
    0,
    2,
    -1,
    -2,
];

/// Tree of motion vector joints.
pub const MV_JOINT_TREE: [i32; 6] = [
    0,
    2,
    -1,
    4,
    -2,
    -3,
];

/// Tree of motion vector classes.
pub const MV_CLASS_TREE: [i32; 20] = [
    0, 2, -1, 4, 6, 8, -2, -3, 10, 12, -4, -5, -6, 14, 16, 18, -7, -8, -9, -10,
];

/// Tree of motion vector fractions.
pub const MV_FR_TREE: [i32; 6] = [0, 2, -1, 4, -2, -3];

/// Maps a coded probability difference to the difference it stands for.
pub const INV_MAP_TABLE: [u8; 255] = [
    7, 20, 33, 46, 59, 72, 85, 98, 111, 124, 137, 150, 163, 176, 189, 202, 215, 228, 241, 254, 1,
    2, 3, 4, 5, 6, 8, 9, 10, 11, 12, 13, 14, 15, 16, 17, 18, 19, 21, 22, 23, 24, 25, 26, 27, 28,
    29, 30, 31, 32, 34, 35, 36, 37, 38, 39, 40, 41, 42, 43, 44, 45, 47, 48, 49, 50, 51, 52, 53, 54,
    55, 56, 57, 58, 60, 61, 62, 63, 64, 65, 66, 67, 68, 69, 70, 71, 73, 74, 75, 76, 77, 78, 79, 80,
    81, 82, 83, 84, 86, 87, 88, 89, 90, 91, 92, 93, 94, 95, 96, 97, 99, 100, 101, 102, 103, 104,
    105, 106, 107, 108, 109, 110, 112, 113, 114, 115, 116, 117, 118, 119, 120, 121, 122, 123, 125,
    126, 127, 128, 129, 130, 131, 132, 133, 134, 135, 136, 138, 139, 140, 141, 142, 143, 144, 145,
    146, 147, 148, 149, 151, 152, 153, 154, 155, 156, 157, 158, 159, 160, 161, 162, 164, 165, 166,
    167, 168, 169, 170, 171, 172, 173, 174, 175, 177, 178, 179, 180, 181, 182, 183, 184, 185, 186,
    187, 188, 190, 191, 192, 193, 194, 195, 196, 197, 198, 199, 200, 201, 203, 204, 205, 206, 207,
    208, 209, 210, 211, 212, 213, 214, 216, 217, 218, 219, 220, 221, 222, 223, 224, 225, 226, 227,
    229, 230, 231, 232, 233, 234, 235, 236, 237, 238, 239, 240, 242, 243, 244, 245, 246, 247, 248,
    249, 250, 251, 252, 253, 253,
];

/// Initial transform size probabilities, by largest transform size, context and
/// node; the first entry is unused.
pub const DEFAULT_TX_PROBS: [[[u8; 3]; 2]; 4] = [
    [
        [0, 0, 0],
        [0, 0, 0],
    ],
    [
        [100, 0, 0],
        [66, 0, 0],
    ],
    [
        [20, 152, 0],
        [15, 101, 0],
    ],
    [
        [3, 136, 37],
        [5, 52, 13],
    ],
];

/// Initial skip flag probabilities.
pub const DEFAULT_SKIP_PROB: [u8; 3] = [192, 128, 64];

/// Coefficient probabilities, by transform size, plane type, reference type, band, context and node.
pub type CoefProbs = [[[[[[u8; 3]; 6]; 6]; 2]; 2]; 4];

/// Coefficient tokens.
pub const ZERO_TOKEN: u8 = 0;
pub const ONE_TOKEN: u8 = 1;
pub const TWO_TOKEN: u8 = 2;
pub const THREE_TOKEN: u8 = 3;
pub const FOUR_TOKEN: u8 = 4;
pub const DCT_VAL_CATEGORY1: u8 = 5;
pub const DCT_VAL_CATEGORY2: u8 = 6;
pub const DCT_VAL_CATEGORY3: u8 = 7;
pub const DCT_VAL_CATEGORY4: u8 = 8;
pub const DCT_VAL_CATEGORY5: u8 = 9;
pub const DCT_VAL_CATEGORY6: u8 = 10;

/// Tree of coefficient tokens.
pub const TOKEN_TREE: [i32; 20] = [
    0,
    2,
    -1,
    4,
    6,
    10,
    -2,
    8,
    -3,
    -4,
    12,
    14,
    -5,
    -6,
    16,
    18,
    -7,
    -8,
    -9,
    -10,
];

/// A single bool as a tree.
pub const BINARY_TREE: [i32; 2] = [0, -1];

/// The block size of a plane, by luma block size and the two subsampling shifts.
pub const SS_SIZE_LOOKUP: [[[u8; 2]; 2]; 13] = [
    [[BLOCK_4X4,   BLOCK_INVALID], [BLOCK_INVALID, BLOCK_INVALID]],
    [[BLOCK_4X8,   BLOCK_4X4],     [BLOCK_INVALID, BLOCK_INVALID]],
    [[BLOCK_8X4,   BLOCK_INVALID], [BLOCK_4X4,     BLOCK_INVALID]],
    [[BLOCK_8X8,   BLOCK_8X4],     [BLOCK_4X8,     BLOCK_4X4]],
    [[BLOCK_8X16,  BLOCK_8X8],     [BLOCK_INVALID, BLOCK_4X8]],
    [[BLOCK_16X8,  BLOCK_INVALID], [BLOCK_8X8,     BLOCK_8X4]],
    [[BLOCK_16X16, BLOCK_16X8],    [BLOCK_8X16,    BLOCK_8X8]],
    [[BLOCK_16X32, BLOCK_16X16],   [BLOCK_INVALID, BLOCK_8X16]],
    [[BLOCK_32X16, BLOCK_INVALID], [BLOCK_16X16,   BLOCK_16X8]],
    [[BLOCK_32X32, BLOCK_32X16],   [BLOCK_16X32,   BLOCK_16X16]],
    [[BLOCK_32X64, BLOCK_32X32],   [BLOCK_INVALID, BLOCK_16X32]],
    [[BLOCK_64X32, BLOCK_INVALID], [BLOCK_32X32,   BLOCK_32X16]],
    [[BLOCK_64X64, BLOCK_64X32],   [BLOCK_32X64,   BLOCK_32X32]],
];

/// Coefficient band of each position of a 4x4 transform.
pub const COEFBAND_4X4: [u8; 16] = [0, 1, 1, 2, 2, 2, 3, 3, 3, 3, 4, 4, 4, 5, 5, 5];

/// Coefficient band of each of the first positions of an 8x8 or larger
/// transform; every later position is in band 5.
pub const COEFBAND_8X8PLUS_HEAD: [u8; 21] = [
    0, 1, 1, 2, 2, 2, 3, 3, 3, 3, 4, 4, 4, 4, 4, 4, 4, 4, 4, 4, 4,
];

/// The coefficient band of scan position `c` in an 8x8 or larger transform.
pub open spec fn spec_coefband_8x8plus(c: int) -> u8 {
    if c <= 0 {
        0
    } else if c <= 2 {
        1
    } else if c <= 5 {
        2
    } else if c <= 9 {
        3
    } else if c <= 20 {
        4
    } else {
        5
    }
}

/// The coefficient band of scan position `c` in an 8x8 or larger transform.
#[verifier::spinoff_prover]
pub fn coefband_8x8plus(c: usize) -> (band: u8)
    ensures
        band == spec_coefband_8x8plus(c as int),
{
    if c < 21 {
        COEFBAND_8X8PLUS_HEAD[c]
    } else {
        5
    }
}

/// Energy class of each token.
pub const ENERGY_CLASS: [u8; 12] = [0, 1, 2, 3, 3, 4, 4, 5, 5, 5, 5, 5];

/// Category, number of extra bits and base value of each token.
pub const EXTRA_BITS: [[u8; 3]; 11] = [
    [0, 0, 0],
    [0, 0, 1],
    [0, 0, 2],
    [0, 0, 3],
    [0, 0, 4],
    [1, 1, 5],
    [2, 2, 7],
    [3, 3, 11],
    [4, 4, 19],
    [5, 5, 35],
    [6, 14, 67],
];

/// Probabilities of the extra bits, by category; a row is used up to its number of extra bits.
pub const CAT_PROBS: [[u8; 14]; 7] = [
    [0, 0, 0, 0, 0, 0, 0, 0, 0, 0, 0, 0, 0, 0],
    [159, 0, 0, 0, 0, 0, 0, 0, 0, 0, 0, 0, 0, 0],
    [165, 145, 0, 0, 0, 0, 0, 0, 0, 0, 0, 0, 0, 0],
    [173, 148, 140, 0, 0, 0, 0, 0, 0, 0, 0, 0, 0, 0],
    [176, 155, 140, 135, 0, 0, 0, 0, 0, 0, 0, 0, 0, 0],
    [180, 157, 141, 134, 130, 0, 0, 0, 0, 0, 0, 0, 0, 0],
    [254, 254, 254, 252, 249, 243, 230, 196, 177, 153, 140, 133, 130, 129],
];

/// The transform type that goes with a prediction mode.
pub open spec fn spec_mode2txfm(mode: u8) -> TxType {
    if mode == V_PRED || mode == D117_PRED || mode == D63_PRED {
        TxType::AdstDct
    } else if mode == H_PRED || mode == D153_PRED || mode == D207_PRED {
        TxType::DctAdst
    } else if mode == D135_PRED || mode == TM_PRED {
        TxType::AdstAdst
    } else {
        TxType::DctDct
    }
}

/// The transform type that goes with a prediction mode. Inter modes always use
/// the DCT in both directions.
#[verifier::spinoff_prover]
pub fn mode2txfm_map(mode: u8) -> (t: TxType)
    requires
        mode <= NEWMV,
    ensures
        t == spec_mode2txfm(mode),
{
    match mode {
        V_PRED => TxType::AdstDct,
        H_PRED => TxType::DctAdst,
        D135_PRED => TxType::AdstAdst,
        D117_PRED => TxType::AdstDct,
        D153_PRED => TxType::DctAdst,
        D207_PRED => TxType::DctAdst,
        D63_PRED => TxType::AdstDct,
        TM_PRED => TxType::AdstAdst,
        _ => TxType::DctDct,
    }
}

/// The probability of a node of the token tree, given the probability `prob`
/// of node 2 that the tail is modelled on: the row of `prob` in the table, or
/// the mean of the two rows that an even `prob` lies between.
pub open spec fn spec_pareto(node: int, prob: u8) -> int {
    if node < 2 {
        prob as int
    } else if prob % 2 == 1 {
        PARETO_TABLE[(prob - 1) / 2][node - 2] as int
    } else {
        (PARETO_TABLE[(prob - 2) / 2][node - 2] + PARETO_TABLE[prob as int / 2][node - 2]) / 2
    }
}

/// The probability of a node of the token tree; see [`spec_pareto`].
#[verifier::spinoff_prover]
#[verifier::rlimit(60)]
pub fn pareto(node: usize, prob: u8) -> (p: u8)
    requires
        node < 2 || (node < 10 && prob >= 1),
    ensures
        p == spec_pareto(node as int, prob),
{
    if node < 2 {
        return prob;
    }
    let x: usize = ((prob - 1) / 2) as usize;
    if prob % 2 == 1 {
        PARETO_TABLE[x][node - 2]
    } else {
        ((PARETO_TABLE[x][node - 2] as u32 + PARETO_TABLE[x + 1][node - 2] as u32) / 2) as u8
    }
}

/// Each odd probability has a row of its own, in order, and every even one lies in
/// the middle of its two neighbours, rounded down.
pub proof fn lemma_pareto_rows(node: int, prob: u8)
    requires
        2 <= node < 10,
        1 <= prob <= 255,
    ensures
        prob % 2 == 1 ==> spec_pareto(node, prob) == PARETO_TABLE[prob as int / 2][node - 2],
        prob % 2 == 0 ==> {
            let sum = spec_pareto(node, (prob - 1) as u8) + spec_pareto(node, (prob + 1) as u8);
            2 * spec_pareto(node, prob) <= sum <= 2 * spec_pareto(node, prob) + 1
        },
        spec_pareto(0, prob) == prob,
        spec_pareto(1, prob) == prob,
{
    if prob % 2 == 0 {
        let low = (prob - 1) as u8;
        let high = (prob + 1) as u8;
        assert((low - 1) / 2 == (prob - 2) / 2);
        assert((high - 1) / 2 == prob as int / 2);
    }
}

/// The bands of a large transform have 1, 2, 3, 4 and 11 positions; all others are in
/// the last.
pub proof fn lemma_band_sizes(c: int)
    requires
        0 <= c,
    ensures
        ({
            let b = spec_coefband_8x8plus(c) as int;
            &&& c < 10 ==> b <= 3 && b * (b + 1) <= 2 * c < (b + 1) * (b + 2)
            &&& 10 <= c < 10 + 11 ==> b == 4
            &&& c >= 10 + 11 ==> b == 5
        }),
{
    let b = spec_coefband_8x8plus(c) as int;
    assert(b == 0 || b == 1 || b == 2 || b == 3 || b == 4 || b == 5);
}

/// Size group of each block size, the context of luma modes in inter frames.
pub const SIZE_GROUP_LOOKUP: [u8; 13] = [0, 0, 0, 1, 1, 1, 2, 2, 2, 3, 3, 3, 3];

/// Initial partition probabilities of inter frames.
pub const DEFAULT_PARTITION_PROBS: [[u8; 3]; 16] = [
    [199, 122, 141],
    [147, 63, 159],
    [148, 133, 118],
    [121, 104, 114],
    [174, 73, 87],
    [92, 41, 83],
    [82, 99, 50],
    [53, 39, 39],
    [177, 58, 59],
    [68, 26, 63],
    [52, 79, 25],
    [17, 14, 12],
    [222, 34, 30],
    [72, 16, 44],
    [58, 32, 12],
    [10, 7, 6],
];

/// Initial luma mode probabilities of inter frames, by size group and node.
pub const DEFAULT_Y_MODE_PROBS: [[u8; 9]; 4] = [
    [65, 32, 18, 144, 162, 194, 41, 51, 98],
    [132, 68, 18, 165, 217, 196, 45, 40, 78],
    [173, 80, 19, 176, 240, 193, 64, 35, 46],
    [221, 135, 38, 194, 248, 121, 96, 85, 29],
];

/// Initial chroma mode probabilities of inter frames, by luma mode and node.
pub const DEFAULT_UV_MODE_PROBS: [[u8; 9]; 10] = [
    [120, 7, 76, 176, 208, 126, 28, 54, 103],
    [48, 12, 154, 155, 139, 90, 34, 117, 119],
    [67, 6, 25, 204, 243, 158, 13, 21, 96],
    [97, 5, 44, 131, 176, 139, 48, 68, 97],
    [83, 5, 42, 156, 111, 152, 26, 49, 152],
    [80, 5, 58, 178, 74, 83, 33, 62, 145],
    [86, 5, 32, 154, 192, 168, 14, 22, 163],
    [85, 5, 32, 156, 216, 148, 19, 29, 73],
    [77, 7, 64, 116, 132, 122, 37, 126, 120],
    [101, 21, 107, 181, 192, 103, 19, 67, 125],
];

/// Initial intra/inter flag probabilities.
pub const DEFAULT_IS_INTER_PROB: [u8; 4] = [9, 102, 187, 225];

/// Initial compound mode probabilities.
pub const DEFAULT_COMP_MODE_PROB: [u8; 5] = [239, 183, 119, 96, 41];

/// Initial compound reference probabilities.
pub const DEFAULT_COMP_REF_PROB: [u8; 5] = [50, 126, 123, 221, 226];

/// Initial single reference probabilities.
pub const DEFAULT_SINGLE_REF_PROB: [[u8; 2]; 5] =
    [[33, 16], [77, 74], [142, 142], [172, 170], [238, 247]];

/// Initial inter mode probabilities.
pub const DEFAULT_INTER_MODE_PROBS: [[u8; 3]; 7] = [
    [2, 173, 34],
    [7, 145, 85],
    [7, 166, 63],
    [7, 94, 66],
    [8, 64, 46],
    [17, 81, 31],
    [25, 29, 30],
];

/// Initial interpolation filter probabilities.
pub const DEFAULT_INTERP_FILTER_PROBS: [[u8; 2]; 4] = [[235, 162], [36, 255], [34, 3], [149, 144]];

/// Initial motion vector joint probabilities.
pub const DEFAULT_MV_JOINT_PROBS: [u8; 3] = [32, 64, 96];

/// Initial motion vector sign probabilities.
pub const DEFAULT_MV_SIGN_PROB: [u8; 2] = [128, 128];

/// Initial motion vector class probabilities.
pub const DEFAULT_MV_CLASS_PROBS: [[u8; 10]; 2] = [
    [224, 144, 192, 168, 192, 176, 192, 198, 198, 245],
    [216, 128, 176, 160, 176, 176, 192, 198, 198, 208],
];

/// Initial motion vector class 0 bit probabilities.
pub const DEFAULT_MV_CLASS0_BIT_PROB: [u8; 2] = [216, 208];

/// Initial motion vector bit probabilities.
pub const DEFAULT_MV_BITS_PROB: [[u8; 10]; 2] = [
    [136, 140, 148, 160, 176, 192, 224, 234, 234, 240],
    [136, 140, 148, 160, 176, 192, 224, 234, 234, 240],
];

/// Initial motion vector class 0 fraction probabilities.
pub const DEFAULT_MV_CLASS0_FR_PROBS: [[[u8; 3]; 2]; 2] = [
    [[128, 128, 64], [96, 112, 64]],
    [[128, 128, 64], [96, 112, 64]],
];

/// Initial motion vector fraction probabilities.
pub const DEFAULT_MV_FR_PROBS: [[u8; 3]; 2] = [[64, 96, 64], [64, 96, 64]];

/// Initial motion vector class 0 high-precision probabilities.
pub const DEFAULT_MV_CLASS0_HP_PROB: [u8; 2] = [160, 160];

/// Initial motion vector high-precision probabilities.
pub const DEFAULT_MV_HP_PROB: [u8; 2] = [128, 128];

/// Count at which adaptation reaches its full rate.
pub const COUNT_SAT: u32 = 20;
/// Full rate of probability adaptation, out of 256.
pub const MAX_UPDATE_FACTOR: u32 = 128;

/// The token tree cut down to one, two and more; entries 0 and 1 are unused, it is walked from index 2.
pub const SMALL_TOKEN_TREE: [i32; 6] = [
    0,
    0,
    0,
    4,
    -1,
    -2,
];

} // verus!
