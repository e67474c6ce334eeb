//! The uncompressed frame header.
//!
//! The header is a bit string whose fields follow one another; which fields are
//! present depends on the ones before. For each group of fields there is a spec
//! function (or predicate) that says what the group at a bit position holds,
//! and one that says where the group ends.

use vstd::prelude::*;
use crate::bit_reader::{
    bit_at, bits_value, lemma_bit_at_range, lemma_bits_value_range, signed_value, BitReader,
};

pub use crate::common::MAX_SEGMENTS;
pub use crate::prob_tables::{
    ALTREF_FRAME, BILINEAR, EIGHTTAP, EIGHTTAP_SHARP, EIGHTTAP_SMOOTH, GOLDEN_FRAME, INTRA_FRAME,
    LAST_FRAME, NUM_REF_FRAMES, SWITCHABLE,
};

pub mod laws;

verus! {

/// Interpolation filter of each coded value.
pub const LITERAL_TO_TYPE: [u8; 4] = [1, 0, 2, 3];

/// Kinds of frames.
#[derive(Debug, Clone, Copy, PartialEq, Eq, Structural)]
pub enum FrameType {
    KeyFrame,
    NonKeyFrame,
}

/// Color spaces.
pub const CS_UNKNOWN: u8 = 0;
pub const CS_BT_601: u8 = 1;
pub const CS_BT_709: u8 = 2;
pub const CS_SMPTE_170: u8 = 3;
pub const CS_SMPTE_240: u8 = 4;
pub const CS_BT_2020: u8 = 5;
pub const CS_RESERVED: u8 = 6;
pub const CS_RGB: u8 = 7;

/// Loop filter deltas of a frame that does not depend on earlier ones.
pub const DEFAULT_LOOP_FILTER_REF_DELTAS: [i8; 4] = [1, 0, -1, -1];
pub const DEFAULT_LOOP_FILTER_MODE_DELTAS: [i8; 2] = [0, 0];

/// Segment features.
pub const SEG_LVL_ALT_Q: usize = 0;
pub const SEG_LVL_ALT_L: usize = 1;
pub const SEG_LVL_REF_FRAME: usize = 2;
pub const SEG_LVL_SKIP: usize = 3;
pub const SEG_LVL_MAX: usize = 4;

/// Number of value bits of each segment feature.
pub const SEGMENTATION_FEATURE_BITS: [u32; SEG_LVL_MAX] = [8, 6, 2, 0];

/// Whether a sign bit follows the value of a segment feature.
pub const SEGMENTATION_FEATURE_SIGNED: [bool; SEG_LVL_MAX] = [true, true, false, false];

/// Which features each segment has.
pub type SegFeatureEnabled = [[bool; SEG_LVL_MAX]; MAX_SEGMENTS];

/// The value of each segment's features.
pub type SegFeatureData = [[i32; SEG_LVL_MAX]; MAX_SEGMENTS];

/// Errors that a header can have.
#[derive(Debug, Clone, Copy, PartialEq, Eq, Structural)]
pub enum HeaderError {
    /// The frame marker is not 2.
    InvalidFrameMarker,
    /// The sync code is not 0x49 0x83 0x42.
    InvalidSyncCode,
    /// RGB in a profile that does not allow it.
    InvalidColorConfigForProfile,
    /// The frame has more luma samples than the decoder allows.
    FrameSizeTooLarge,
    /// A reference frame has another bit depth or subsampling than the frame.
    RefFrameFormatMismatch,
}

/// Parameters of the loop filter.
#[derive(Debug, Clone, Copy, PartialEq, Eq)]
pub struct LoopFilterParams {
    pub level: u8,
    pub sharpness: u8,
    pub delta_enabled: bool,
    /// Level adjustment per reference frame type.
    pub ref_deltas: [i8; 4],
    /// Level adjustment per inter mode class.
    pub mode_deltas: [i8; 2],
}

/// Quantization parameters.
#[derive(Debug, Clone, Copy, PartialEq, Eq)]
pub struct QuantizationParams {
    pub base_q_idx: u8,
    pub delta_q_y_dc: i32,
    pub delta_q_uv_dc: i32,
    pub delta_q_uv_ac: i32,
    /// All four values above are 0.
    pub lossless: bool,
}

/// Sample format.
#[derive(Debug, Clone, Copy, PartialEq, Eq, Structural)]
pub struct ColorConfig {
    pub bit_depth: u8,
    pub color_space: u8,
    pub color_range: bool,
    pub subsampling_x: u8,
    pub subsampling_y: u8,
}

/// The loop filter deltas that carry over from frame to frame.
#[derive(Debug, Clone, Copy, PartialEq, Eq)]
pub struct LoopFilterDeltas {
    pub ref_deltas: [i8; 4],
    pub mode_deltas: [i8; 2],
}

/// The segment features that carry over from frame to frame.
#[derive(Debug, Clone, Copy, PartialEq, Eq)]
pub struct SegFeaturePersist {
    pub enabled: SegFeatureEnabled,
    pub data: SegFeatureData,
    pub abs_or_delta: bool,
}

/// Everything that a header needs to know of earlier frames.
#[derive(Debug, Clone, Copy, PartialEq, Eq)]
pub struct PersistentState {
    /// Width and height of the frame in each reference slot.
    pub ref_frame_sizes: [(u32, u32); NUM_REF_FRAMES],
    pub loop_filter_deltas: LoopFilterDeltas,
    pub segmentation: SegFeaturePersist,
}

/// Segmentation parameters.
#[derive(Debug, Clone, Copy, PartialEq, Eq)]
pub struct SegmentationParams {
    pub enabled: bool,
    pub update_map: bool,
    /// Probabilities of the segment id tree, where the map is updated.
    pub tree_probs: [u8; 7],
    /// Probabilities of the prediction flag, where the map is predicted.
    pub pred_prob: [u8; 3],
    pub temporal_update: bool,
    /// Whether feature values replace the frame's value or are added to it.
    pub abs_or_delta_update: bool,
    pub feature_enabled: SegFeatureEnabled,
    pub feature_data: SegFeatureData,
}

/// A parsed header.
#[derive(Debug, Clone, PartialEq, Eq)]
pub enum FrameHeader {
    /// Nothing new is decoded; the frame in the slot is shown.
    ShowExistingFrame { frame_to_show_map_idx: u8 },
    /// A new frame.
    New(NewFrameHeader),
}

/// The header of a new frame.
#[derive(Debug, Clone, PartialEq, Eq)]
pub struct NewFrameHeader {
    pub profile: u8,
    pub frame_type: FrameType,
    pub show_frame: bool,
    pub error_resilient_mode: bool,
    /// A key frame, or an intra-only frame.
    pub frame_is_intra: bool,
    pub intra_only: bool,
    /// Which probability contexts to reset; 0 in error resilient mode.
    pub reset_frame_context: u8,
    /// The sample format; `None` for an inter frame, which has that of the
    /// frames before it.
    pub color_config: Option<ColorConfig>,
    pub width: u32,
    pub height: u32,
    pub render_width: u32,
    pub render_height: u32,
    /// The reference slots to update; all of them for a key frame.
    pub refresh_frame_flags: u8,
    /// The slots of the last, golden and alternate reference frames.
    pub ref_frame_idx: [u8; 3],
    /// Sign bias by reference frame type.
    pub ref_frame_sign_bias: [bool; 4],
    pub allow_high_precision_mv: bool,
    pub interpolation_filter: u8,
    pub refresh_frame_context: bool,
    pub frame_parallel_decoding_mode: bool,
    /// The coded context index. See
    /// [`NewFrameHeader::effective_frame_context_idx`] for the one to load from
    /// and save to.
    pub frame_context_idx: u8,
    pub loop_filter: LoopFilterParams,
    pub quantization: QuantizationParams,
    pub segmentation: SegmentationParams,
    pub tile_cols_log2: u32,
    pub tile_rows_log2: u32,
    /// Size in bytes of the compressed header that follows.
    pub header_size_in_bytes: u16,
}

/// Frame dimensions in 8x8 and in 64x64 units.
#[derive(Debug, Clone, Copy)]
pub struct ImageSize {
    pub mi_cols: u32,
    pub mi_rows: u32,
    pub sb64_cols: u32,
    pub sb64_rows: u32,
}

// ---------------------------------------------------------------------------
// Persistent state.
// ---------------------------------------------------------------------------

impl LoopFilterDeltas {
    /// The deltas of a frame that does not depend on earlier ones.
    pub open spec fn is_default(&self) -> bool {
        self.ref_deltas@ == DEFAULT_LOOP_FILTER_REF_DELTAS@ && self.mode_deltas@
            == DEFAULT_LOOP_FILTER_MODE_DELTAS@
    }
}

impl Default for LoopFilterDeltas {
    fn default() -> (r: Self)
        ensures
            r.is_default(),
    {
        LoopFilterDeltas {
            ref_deltas: DEFAULT_LOOP_FILTER_REF_DELTAS,
            mode_deltas: DEFAULT_LOOP_FILTER_MODE_DELTAS,
        }
    }
}

impl SegFeaturePersist {
    /// No segment has a feature.
    pub open spec fn is_default(&self) -> bool {
        &&& !self.abs_or_delta
        &&& forall|s: int, l: int|
            0 <= s < MAX_SEGMENTS && 0 <= l < SEG_LVL_MAX ==> !#[trigger] self.enabled[s][l]
        &&& forall|s: int, l: int|
            0 <= s < MAX_SEGMENTS && 0 <= l < SEG_LVL_MAX ==> #[trigger] self.data[s][l] == 0
    }
}

impl Default for SegFeaturePersist {
    fn default() -> (r: Self)
        ensures
            r.is_default(),
    {
        SegFeaturePersist { enabled: [[false; 4]; 8], data: [[0i32; 4]; 8], abs_or_delta: false }
    }
}

impl PersistentState {
    /// The state before the first frame.
    pub open spec fn is_initial(&self) -> bool {
        &&& forall|i: int| 0 <= i < NUM_REF_FRAMES ==> #[trigger] self.ref_frame_sizes[i] == (0u32, 0u32)
        &&& self.loop_filter_deltas.is_default()
        &&& self.segmentation.is_default()
    }

    /// The slot sizes can be rounded up to whole units.
    pub open spec fn sizes_ok(&self) -> bool {
        forall|i: int|
            0 <= i < NUM_REF_FRAMES ==> (#[trigger] self.ref_frame_sizes[i]).0 <= u32::MAX - 7
                && self.ref_frame_sizes[i].1 <= u32::MAX - 7
    }

    /// The state before the first frame.
    pub fn new() -> (r: Self)
        ensures
            r.is_initial(),
    {
        PersistentState {
            ref_frame_sizes: [(0u32, 0u32); 8],
            loop_filter_deltas: LoopFilterDeltas::default(),
            segmentation: SegFeaturePersist::default(),
        }
    }
}

impl Default for PersistentState {
    fn default() -> (r: Self)
        ensures
            r.is_initial(),
    {
        Self::new()
    }
}

impl NewFrameHeader {
    /// The frame starts without any state of earlier frames.
    pub open spec fn spec_resets_past(&self) -> bool {
        self.frame_is_intra || self.error_resilient_mode
    }

    /// The context to load from and save to: 0 for a frame that does not depend
    /// on earlier ones, else the coded index.
    pub fn effective_frame_context_idx(&self) -> (i: u8)
        ensures
            i == if self.spec_resets_past() { 0u8 } else { self.frame_context_idx },
    {
        if self.frame_is_intra || self.error_resilient_mode {
            0
        } else {
            self.frame_context_idx
        }
    }
}

// ---------------------------------------------------------------------------
// Frame dimensions.
// ---------------------------------------------------------------------------

/// The number of units of 8 that cover `n`.
pub open spec fn units8(n: int) -> int {
    (n + 7) / 8
}

/// Frame dimensions in units.
pub fn compute_image_size(width: u32, height: u32) -> (r: ImageSize)
    requires
        width <= u32::MAX - 7,
        height <= u32::MAX - 7,
    ensures
        r.mi_cols == units8(width as int),
        r.mi_rows == units8(height as int),
        r.sb64_cols == units8(units8(width as int)),
        r.sb64_rows == units8(units8(height as int)),
{
    let mi_cols: u32 = (width + 7) / 8;
    let mi_rows: u32 = (height + 7) / 8;
    let sb64_cols: u32 = (mi_cols + 7) / 8;
    let sb64_rows: u32 = (mi_rows + 7) / 8;
    ImageSize { mi_cols, mi_rows, sb64_cols, sb64_rows }
}

/// The least number of times that 64 superblocks must be doubled to cover `sb`:
/// no tile is wider than 64 superblocks.
pub open spec fn min_log2_tile_cols(sb: int) -> int
    decreases sb,
{
    if sb <= 64 {
        0
    } else {
        1 + min_log2_tile_cols((sb + 1) / 2)
    }
}

/// The greatest number of times that `sb` superblocks can be halved and leave at
/// least 4: no tile is narrower than 4 superblocks.
pub open spec fn max_log2_tile_cols(sb: int) -> int
    decreases sb,
{
    if sb < 8 {
        0
    } else {
        1 + max_log2_tile_cols(sb / 2)
    }
}

/// Both limits are small.
pub proof fn lemma_tile_cols_limits(sb: int, k: nat)
    requires
        0 <= sb <= 64 * vstd::arithmetic::power2::pow2(k),
    ensures
        0 <= min_log2_tile_cols(sb) <= k,
        0 <= max_log2_tile_cols(sb) <= k + 6,
    decreases k,
{
    vstd::arithmetic::power2::lemma2_to64();
    if k == 0 {
        assert(0 <= sb <= 64);
        assert(max_log2_tile_cols(sb) <= 4) by {
            reveal_with_fuel(max_log2_tile_cols, 6);
        }
        assert(max_log2_tile_cols(sb) >= 0) by {
            reveal_with_fuel(max_log2_tile_cols, 6);
        }
    } else {
        vstd::arithmetic::power2::lemma_pow2_unfold(k);
        if sb > 64 {
            lemma_tile_cols_limits((sb + 1) / 2, (k - 1) as nat);
        }
        if sb >= 8 {
            lemma_tile_cols_limits(sb / 2, (k - 1) as nat);
        }
    }
}

fn calc_min_log2_tile_cols(sb64_cols: u32) -> (r: u32)
    requires
        sb64_cols < u32::MAX,
    ensures
        r == min_log2_tile_cols(sb64_cols as int),
        r <= 32,
{
    let mut rest: u32 = sb64_cols;
    let mut log2: u32 = 0;
    let ghost mut k: nat = 26;
    proof {
        vstd::arithmetic::power2::lemma2_to64();
    }
    while rest > 64
        invariant
            rest < u32::MAX,
            k + log2 == 26,
            rest <= 64 * vstd::arithmetic::power2::pow2(k),
            log2 + min_log2_tile_cols(rest as int) == min_log2_tile_cols(sb64_cols as int),
        decreases rest,
    {
        proof {
            vstd::arithmetic::power2::lemma2_to64();
            if k > 0 {
                vstd::arithmetic::power2::lemma_pow2_unfold(k);
                k = (k - 1) as nat;
            }
        }
        rest = (rest + 1) / 2;
        log2 += 1;
    }
    log2
}

fn calc_max_log2_tile_cols(sb64_cols: u32) -> (r: u32)
    ensures
        r == max_log2_tile_cols(sb64_cols as int),
        r <= 32,
{
    let mut rest: u32 = sb64_cols;
    let mut log2: u32 = 0;
    let ghost mut k: nat = 32;
    proof {
        vstd::arithmetic::power2::lemma2_to64();
    }
    while rest >= 8
        invariant
            k + log2 == 32,
            rest < vstd::arithmetic::power2::pow2(k),
            log2 + max_log2_tile_cols(rest as int) == max_log2_tile_cols(sb64_cols as int),
        decreases rest,
    {
        proof {
            vstd::arithmetic::power2::lemma2_to64();
            if k > 0 {
                vstd::arithmetic::power2::lemma_pow2_unfold(k);
                k = (k - 1) as nat;
            }
        }
        rest = rest / 2;
        log2 += 1;
    }
    log2
}

// ---------------------------------------------------------------------------
// Groups of fields.
// ---------------------------------------------------------------------------

/// The bit at `p` is set.
pub open spec fn flag_at(d: Seq<u8>, p: int) -> bool {
    bit_at(d, p) == 1
}

/// A probability: a flag, then 8 bits where it is set; else 255.
pub open spec fn prob_at(d: Seq<u8>, p: int) -> int {
    if flag_at(d, p) {
        bits_value(d, p + 1, 8)
    } else {
        255
    }
}

/// Where `n` probabilities that start at `p` end.
pub open spec fn probs_end(d: Seq<u8>, p: int, n: nat) -> int
    decreases n,
{
    if n == 0 {
        p
    } else {
        let q = probs_end(d, p, (n - 1) as nat);
        q + if flag_at(d, q) { 9int } else { 1int }
    }
}

fn read_prob(r: &mut BitReader) -> (v: u8)
    requires
        old(r).pos() + 9 <= usize::MAX,
    ensures
        v == prob_at(old(r).bytes(), old(r).pos()),
        final(r).bytes() == old(r).bytes(),
        final(r).pos() == probs_end(old(r).bytes(), old(r).pos(), 1),
        final(r).pos() <= old(r).pos() + 9,
{
    proof {
        reveal_with_fuel(probs_end, 2);
        lemma_bits_value_range(r.bytes(), r.pos() + 1, 8);
    }
    if r.flag() {
        r.f(8) as u8
    } else {
        255
    }
}

/// A quantizer difference: a flag, then a signed 4-bit value where it is set;
/// else 0.
pub open spec fn delta_q_at(d: Seq<u8>, p: int) -> int {
    if flag_at(d, p) {
        signed_value(d, p + 1, 4)
    } else {
        0
    }
}

/// Where a quantizer difference ends.
pub open spec fn delta_q_end(d: Seq<u8>, p: int) -> int {
    p + if flag_at(d, p) { 6int } else { 1int }
}

fn read_delta_q(r: &mut BitReader) -> (v: i32)
    requires
        old(r).pos() + 6 <= usize::MAX,
    ensures
        v == delta_q_at(old(r).bytes(), old(r).pos()),
        final(r).bytes() == old(r).bytes(),
        final(r).pos() == delta_q_end(old(r).bytes(), old(r).pos()),
{
    if r.flag() {
        r.s(4)
    } else {
        0
    }
}

/// Where the color space stands in a color config at `p`.
pub open spec fn color_space_pos(p: int, profile: u8) -> int {
    p + if profile >= 2 { 1int } else { 0int }
}

/// RGB needs an odd profile.
pub open spec fn color_config_ok(d: Seq<u8>, p: int, profile: u8) -> bool {
    !(bits_value(d, color_space_pos(p, profile), 3) == CS_RGB && profile % 2 == 0)
}

/// The color config at `p`.
pub open spec fn color_config_at(d: Seq<u8>, p: int, profile: u8) -> ColorConfig {
    let q = color_space_pos(p, profile);
    let space = bits_value(d, q, 3) as u8;
    let coded_subsampling = profile == 1 || profile == 3;
    ColorConfig {
        bit_depth: if profile >= 2 {
            if flag_at(d, p) {
                12
            } else {
                10
            }
        } else {
            8
        },
        color_space: space,
        color_range: space == CS_RGB || flag_at(d, q + 3),
        subsampling_x: if space == CS_RGB {
            0
        } else if coded_subsampling {
            bit_at(d, q + 4) as u8
        } else {
            1
        },
        subsampling_y: if space == CS_RGB {
            0
        } else if coded_subsampling {
            bit_at(d, q + 5) as u8
        } else {
            1
        },
    }
}

/// Where a color config ends.
pub open spec fn color_config_end(d: Seq<u8>, p: int, profile: u8) -> int {
    let q = color_space_pos(p, profile);
    let coded_subsampling = profile == 1 || profile == 3;
    if bits_value(d, q, 3) == CS_RGB {
        q + 3 + if coded_subsampling { 1int } else { 0int }
    } else {
        q + 4 + if coded_subsampling { 3int } else { 0int }
    }
}

fn parse_color_config(r: &mut BitReader, profile: u8) -> (c: Result<ColorConfig, HeaderError>)
    requires
        old(r).pos() + 8 <= usize::MAX,
    ensures
        match c {
            Ok(c) => {
                &&& color_config_ok(old(r).bytes(), old(r).pos(), profile)
                &&& c == color_config_at(old(r).bytes(), old(r).pos(), profile)
                &&& final(r).pos() == color_config_end(old(r).bytes(), old(r).pos(), profile)
            },
            Err(e) => {
                &&& e == HeaderError::InvalidColorConfigForProfile
                &&& !color_config_ok(old(r).bytes(), old(r).pos(), profile)
            },
        },
        final(r).bytes() == old(r).bytes(),
        final(r).pos() <= old(r).pos() + 8,
{
    proof {
        let q = color_space_pos(r.pos(), profile);
        lemma_bits_value_range(r.bytes(), q, 3);
        lemma_bits_value_range(r.bytes(), q + 4, 1);
        lemma_bits_value_range(r.bytes(), q + 5, 1);
        reveal_with_fuel(bits_value, 2);
    }
    let bit_depth: u8 = if profile >= 2 {
        if r.flag() {
            12
        } else {
            10
        }
    } else {
        8
    };
    let color_space: u8 = r.f(3) as u8;
    if color_space == CS_RGB && profile % 2 == 0 {
        return Err(HeaderError::InvalidColorConfigForProfile);
    }
    let coded_subsampling: bool = profile == 1 || profile == 3;
    if color_space != CS_RGB {
        let color_range: bool = r.flag();
        if coded_subsampling {
            let subsampling_x: u8 = r.f(1) as u8;
            let subsampling_y: u8 = r.f(1) as u8;
            let _reserved_zero: u32 = r.f(1);
            Ok(ColorConfig { bit_depth, color_space, color_range, subsampling_x, subsampling_y })
        } else {
            Ok(
                ColorConfig {
                    bit_depth,
                    color_space,
                    color_range,
                    subsampling_x: 1,
                    subsampling_y: 1,
                },
            )
        }
    } else {
        if coded_subsampling {
            let _reserved_zero: u32 = r.f(1);
        }
        Ok(
            ColorConfig {
                bit_depth,
                color_space,
                color_range: true,
                subsampling_x: 0,
                subsampling_y: 0,
            },
        )
    }
}

/// The size of two 16-bit fields at `p`, each one less than it stands for.
pub open spec fn size_at(d: Seq<u8>, p: int) -> (u32, u32) {
    ((bits_value(d, p, 16) + 1) as u32, (bits_value(d, p + 16, 16) + 1) as u32)
}

fn parse_frame_size(r: &mut BitReader) -> (s: (u32, u32))
    requires
        old(r).pos() + 32 <= usize::MAX,
    ensures
        s == size_at(old(r).bytes(), old(r).pos()),
        1 <= s.0 <= 0x1_0000,
        1 <= s.1 <= 0x1_0000,
        final(r).bytes() == old(r).bytes(),
        final(r).pos() == old(r).pos() + 32,
{
    proof {
        lemma_bits_value_range(r.bytes(), r.pos(), 16);
        lemma_bits_value_range(r.bytes(), r.pos() + 16, 16);
    }
    let frame_width_minus_1: u32 = r.f(16);
    let frame_height_minus_1: u32 = r.f(16);
    (frame_width_minus_1 + 1, frame_height_minus_1 + 1)
}

/// The render size at `p`: coded after a flag, else the frame size.
pub open spec fn render_size_at(d: Seq<u8>, p: int, size: (u32, u32)) -> (u32, u32) {
    if flag_at(d, p) {
        size_at(d, p + 1)
    } else {
        size
    }
}

/// Where the render size ends.
pub open spec fn render_size_end(d: Seq<u8>, p: int) -> int {
    p + if flag_at(d, p) { 33int } else { 1int }
}

fn parse_render_size(r: &mut BitReader, width: u32, height: u32) -> (s: (u32, u32))
    requires
        old(r).pos() + 33 <= usize::MAX,
    ensures
        s == render_size_at(old(r).bytes(), old(r).pos(), (width, height)),
        final(r).bytes() == old(r).bytes(),
        final(r).pos() == render_size_end(old(r).bytes(), old(r).pos()),
{
    if r.flag() {
        parse_frame_size(r)
    } else {
        (width, height)
    }
}

/// The frame size of an inter frame: up to three flags, one per reference, the
/// first set one taking that reference's size; an explicit size where none is
/// set.
pub open spec fn size_with_refs_at(
    d: Seq<u8>,
    p: int,
    ref_frame_idx: Seq<u8>,
    sizes: Seq<(u32, u32)>,
) -> (u32, u32) {
    if flag_at(d, p) {
        sizes[ref_frame_idx[0] as int]
    } else if flag_at(d, p + 1) {
        sizes[ref_frame_idx[1] as int]
    } else if flag_at(d, p + 2) {
        sizes[ref_frame_idx[2] as int]
    } else {
        size_at(d, p + 3)
    }
}

/// Where the frame size of an inter frame ends.
pub open spec fn size_with_refs_end(d: Seq<u8>, p: int) -> int {
    if flag_at(d, p) {
        p + 1
    } else if flag_at(d, p + 1) {
        p + 2
    } else if flag_at(d, p + 2) {
        p + 3
    } else {
        p + 35
    }
}

fn parse_frame_size_with_refs(
    r: &mut BitReader,
    ref_frame_idx: &[u8; 3],
    ref_frame_sizes: &[(u32, u32); NUM_REF_FRAMES],
) -> (s: (u32, u32))
    requires
        old(r).pos() + 35 <= usize::MAX,
        forall|i: int| 0 <= i < 3 ==> (#[trigger] ref_frame_idx[i]) < NUM_REF_FRAMES,
    ensures
        s == size_with_refs_at(old(r).bytes(), old(r).pos(), ref_frame_idx@, ref_frame_sizes@),
        (forall|i: int|
            0 <= i < NUM_REF_FRAMES ==> (#[trigger] ref_frame_sizes[i]).0 <= u32::MAX - 7
                && ref_frame_sizes[i].1 <= u32::MAX - 7) ==> s.0 <= u32::MAX - 7 && s.1 <= u32::MAX
            - 7,
        final(r).bytes() == old(r).bytes(),
        final(r).pos() == size_with_refs_end(old(r).bytes(), old(r).pos()),
{
    if r.flag() {
        return ref_frame_sizes[ref_frame_idx[0] as usize];
    }
    if r.flag() {
        return ref_frame_sizes[ref_frame_idx[1] as usize];
    }
    if r.flag() {
        return ref_frame_sizes[ref_frame_idx[2] as usize];
    }
    parse_frame_size(r)
}

/// The interpolation filter at `p`: a flag for a filter per block, else a
/// 2-bit code.
pub open spec fn interpolation_filter_at(d: Seq<u8>, p: int) -> u8 {
    if flag_at(d, p) {
        SWITCHABLE
    } else {
        LITERAL_TO_TYPE[bits_value(d, p + 1, 2)]
    }
}

/// Where the interpolation filter ends.
pub open spec fn interpolation_filter_end(d: Seq<u8>, p: int) -> int {
    p + if flag_at(d, p) { 1int } else { 3int }
}

fn parse_interpolation_filter(r: &mut BitReader) -> (v: u8)
    requires
        old(r).pos() + 3 <= usize::MAX,
    ensures
        v == interpolation_filter_at(old(r).bytes(), old(r).pos()),
        v <= SWITCHABLE,
        final(r).bytes() == old(r).bytes(),
        final(r).pos() == interpolation_filter_end(old(r).bytes(), old(r).pos()),
{
    proof {
        lemma_bits_value_range(r.bytes(), r.pos() + 1, 2);
    }
    if r.flag() {
        SWITCHABLE
    } else {
        let raw: usize = r.f(2) as usize;
        LITERAL_TO_TYPE[raw]
    }
}

/// A delta at `p`: a flag, then a signed 6-bit value where it is set; else the
/// old one stays.
pub open spec fn lf_delta_at(d: Seq<u8>, p: int, old_delta: i8) -> i8 {
    if flag_at(d, p) {
        signed_value(d, p + 1, 6) as i8
    } else {
        old_delta
    }
}

/// Where `n` deltas that start at `p` end.
pub open spec fn lf_deltas_end(d: Seq<u8>, p: int, n: nat) -> int
    decreases n,
{
    if n == 0 {
        p
    } else {
        let q = lf_deltas_end(d, p, (n - 1) as nat);
        q + if flag_at(d, q) { 8int } else { 1int }
    }
}

/// Whether the loop filter parameters at `p` update the deltas.
pub open spec fn lf_updates_deltas(d: Seq<u8>, p: int) -> bool {
    flag_at(d, p + 9) && flag_at(d, p + 10)
}

/// The deltas before an update.
pub open spec fn lf_base_deltas(reset: bool, prev: LoopFilterDeltas) -> (Seq<i8>, Seq<i8>) {
    if reset {
        (DEFAULT_LOOP_FILTER_REF_DELTAS@, DEFAULT_LOOP_FILTER_MODE_DELTAS@)
    } else {
        (prev.ref_deltas@, prev.mode_deltas@)
    }
}

/// The loop filter parameters at `p`, given the deltas of the frame before and
/// whether they are reset.
pub open spec fn loop_filter_at(
    d: Seq<u8>,
    p: int,
    reset: bool,
    prev: LoopFilterDeltas,
    lf: LoopFilterParams,
) -> bool {
    let base = lf_base_deltas(reset, prev);
    let update = lf_updates_deltas(d, p);
    &&& lf.level == bits_value(d, p, 6)
    &&& lf.sharpness == bits_value(d, p + 6, 3)
    &&& lf.delta_enabled == flag_at(d, p + 9)
    &&& forall|i: int|
        0 <= i < 4 ==> #[trigger] lf.ref_deltas[i] == if update {
            lf_delta_at(d, lf_deltas_end(d, p + 11, i as nat), base.0[i])
        } else {
            base.0[i]
        }
    &&& forall|i: int|
        0 <= i < 2 ==> #[trigger] lf.mode_deltas[i] == if update {
            lf_delta_at(d, lf_deltas_end(d, p + 11, (4 + i) as nat), base.1[i])
        } else {
            base.1[i]
        }
}

/// Where the loop filter parameters end.
pub open spec fn loop_filter_end(d: Seq<u8>, p: int) -> int {
    if lf_updates_deltas(d, p) {
        lf_deltas_end(d, p + 11, 6)
    } else if flag_at(d, p + 9) {
        p + 11
    } else {
        p + 10
    }
}

fn read_lf_delta(
    r: &mut BitReader,
    old_delta: i8,
    Ghost(start): Ghost<int>,
    Ghost(n): Ghost<nat>,
) -> (v: i8)
    requires
        old(r).pos() + 8 <= usize::MAX,
        old(r).pos() == lf_deltas_end(old(r).bytes(), start, n),
    ensures
        v == lf_delta_at(old(r).bytes(), old(r).pos(), old_delta),
        final(r).bytes() == old(r).bytes(),
        final(r).pos() == lf_deltas_end(old(r).bytes(), start, n + 1),
        final(r).pos() <= old(r).pos() + 8,
{
    proof {
        lemma_bits_value_range(r.bytes(), r.pos() + 1, 6);
    }
    if r.flag() {
        r.s(6) as i8
    } else {
        old_delta
    }
}

fn parse_loop_filter_params(r: &mut BitReader, reset: bool, prev_deltas: LoopFilterDeltas) -> (lf:
    LoopFilterParams)
    requires
        old(r).pos() + 59 <= usize::MAX,
    ensures
        loop_filter_at(old(r).bytes(), old(r).pos(), reset, prev_deltas, lf),
        final(r).bytes() == old(r).bytes(),
        final(r).pos() == loop_filter_end(old(r).bytes(), old(r).pos()),
        final(r).pos() <= old(r).pos() + 59,
{
    let ghost d = r.bytes();
    let ghost p = r.pos();
    proof {
        lemma_bits_value_range(d, p, 6);
        lemma_bits_value_range(d, p + 6, 3);
    }
    let level: u8 = r.f(6) as u8;
    let sharpness: u8 = r.f(3) as u8;
    let delta_enabled: bool = r.flag();
    let mut ref_deltas: [i8; 4] = if reset {
        DEFAULT_LOOP_FILTER_REF_DELTAS
    } else {
        prev_deltas.ref_deltas
    };
    let mut mode_deltas: [i8; 2] = if reset {
        DEFAULT_LOOP_FILTER_MODE_DELTAS
    } else {
        prev_deltas.mode_deltas
    };
    let ghost base = lf_base_deltas(reset, prev_deltas);
    if delta_enabled {
        let delta_update: bool = r.flag();
        if delta_update {
            for i in 0..4usize
                invariant
                    r.bytes() == d,
                    r.pos() == lf_deltas_end(d, p + 11, i as nat),
                    r.pos() <= p + 11 + 8 * i,
                    p + 59 <= usize::MAX,
                    forall|k: int|
                        0 <= k < 4 ==> #[trigger] ref_deltas[k] == if k < i {
                            lf_delta_at(d, lf_deltas_end(d, p + 11, k as nat), base.0[k])
                        } else {
                            base.0[k]
                        },
            {
                let old_delta: i8 = ref_deltas[i];
                ref_deltas[i] = read_lf_delta(r, old_delta, Ghost(p + 11), Ghost(i as nat));
            }
            for i in 0..2usize
                invariant
                    r.bytes() == d,
                    r.pos() == lf_deltas_end(d, p + 11, (4 + i) as nat),
                    r.pos() <= p + 11 + 8 * (4 + i),
                    p + 59 <= usize::MAX,
                    forall|k: int|
                        0 <= k < 2 ==> #[trigger] mode_deltas[k] == if k < i {
                            lf_delta_at(d, lf_deltas_end(d, p + 11, (4 + k) as nat), base.1[k])
                        } else {
                            base.1[k]
                        },
            {
                let old_delta: i8 = mode_deltas[i];
                mode_deltas[i] = read_lf_delta(r, old_delta, Ghost(p + 11), Ghost((4 + i) as nat));
            }
        }
    }
    LoopFilterParams { level, sharpness, delta_enabled, ref_deltas, mode_deltas }
}

/// The quantization parameters at `p`.
pub open spec fn quantization_at(d: Seq<u8>, p: int) -> QuantizationParams {
    let base = bits_value(d, p, 8) as u8;
    let q1 = p + 8;
    let q2 = delta_q_end(d, q1);
    let q3 = delta_q_end(d, q2);
    let y_dc = delta_q_at(d, q1) as i32;
    let uv_dc = delta_q_at(d, q2) as i32;
    let uv_ac = delta_q_at(d, q3) as i32;
    QuantizationParams {
        base_q_idx: base,
        delta_q_y_dc: y_dc,
        delta_q_uv_dc: uv_dc,
        delta_q_uv_ac: uv_ac,
        lossless: base == 0 && y_dc == 0 && uv_dc == 0 && uv_ac == 0,
    }
}

/// Where the quantization parameters end.
pub open spec fn quantization_end(d: Seq<u8>, p: int) -> int {
    delta_q_end(d, delta_q_end(d, delta_q_end(d, p + 8)))
}

fn parse_quantization_params(r: &mut BitReader) -> (q: QuantizationParams)
    requires
        old(r).pos() + 26 <= usize::MAX,
    ensures
        q == quantization_at(old(r).bytes(), old(r).pos()),
        final(r).bytes() == old(r).bytes(),
        final(r).pos() == quantization_end(old(r).bytes(), old(r).pos()),
        final(r).pos() <= old(r).pos() + 26,
{
    proof {
        lemma_bits_value_range(r.bytes(), r.pos(), 8);
    }
    let base_q_idx: u8 = r.f(8) as u8;
    let delta_q_y_dc: i32 = read_delta_q(r);
    let delta_q_uv_dc: i32 = read_delta_q(r);
    let delta_q_uv_ac: i32 = read_delta_q(r);
    let lossless: bool = base_q_idx == 0 && delta_q_y_dc == 0 && delta_q_uv_dc == 0 && delta_q_uv_ac
        == 0;
    QuantizationParams { base_q_idx, delta_q_y_dc, delta_q_uv_dc, delta_q_uv_ac, lossless }
}

// ---------------------------------------------------------------------------
// Segmentation.
// ---------------------------------------------------------------------------

/// The value of the segment feature `level` at `p`: 0 where its flag is not
/// set.
pub open spec fn feature_value_at(d: Seq<u8>, p: int, level: int) -> int {
    let bits = SEGMENTATION_FEATURE_BITS[level];
    if !flag_at(d, p) {
        0
    } else if SEGMENTATION_FEATURE_SIGNED[level] && flag_at(d, p + 1 + bits) {
        -bits_value(d, p + 1, bits as nat)
    } else {
        bits_value(d, p + 1, bits as nat)
    }
}

/// Where the segment feature `level` at `p` ends.
pub open spec fn feature_end(d: Seq<u8>, p: int, level: int) -> int {
    if !flag_at(d, p) {
        p + 1
    } else {
        p + 1 + SEGMENTATION_FEATURE_BITS[level] + if SEGMENTATION_FEATURE_SIGNED[level] {
            1int
        } else {
            0int
        }
    }
}

/// Where feature `k % 4` of segment `k / 4` starts, in features that start at
/// `p`.
pub open spec fn feature_pos(d: Seq<u8>, p: int, k: nat) -> int
    decreases k,
{
    if k == 0 {
        p
    } else {
        feature_end(d, feature_pos(d, p, (k - 1) as nat), (k - 1) % 4)
    }
}

/// Where the segment map's temporal flag stands.
pub open spec fn temporal_pos(d: Seq<u8>, p: int) -> int {
    probs_end(d, p + 2, 7)
}

/// Whether the segmentation parameters at `p` update the map.
pub open spec fn seg_updates_map(d: Seq<u8>, p: int) -> bool {
    flag_at(d, p) && flag_at(d, p + 1)
}

/// Whether the map update at `p` is predicted from the frame before.
pub open spec fn seg_temporal(d: Seq<u8>, p: int) -> bool {
    seg_updates_map(d, p) && flag_at(d, temporal_pos(d, p))
}

/// Where the flag for new feature data stands.
pub open spec fn update_data_pos(d: Seq<u8>, p: int) -> int {
    if !seg_updates_map(d, p) {
        p + 2
    } else if seg_temporal(d, p) {
        probs_end(d, temporal_pos(d, p) + 1, 3)
    } else {
        temporal_pos(d, p) + 1
    }
}

/// Whether the segmentation parameters at `p` carry new feature data.
pub open spec fn seg_updates_data(d: Seq<u8>, p: int) -> bool {
    flag_at(d, p) && flag_at(d, update_data_pos(d, p))
}

/// Whether a feature was enabled before.
pub open spec fn base_enabled(reset: bool, prev: SegFeaturePersist, s: int, l: int) -> bool {
    !reset && prev.enabled[s][l]
}

/// The value that a feature had before.
pub open spec fn base_data(reset: bool, prev: SegFeaturePersist, s: int, l: int) -> int {
    if reset {
        0
    } else {
        prev.data[s][l] as int
    }
}

/// The segmentation parameters at `p`, given the features of the frame before
/// and whether they are reset. Features that are not sent anew carry over.
pub open spec fn segmentation_at(
    d: Seq<u8>,
    p: int,
    reset: bool,
    prev: SegFeaturePersist,
    seg: SegmentationParams,
) -> bool {
    let q = update_data_pos(d, p);
    &&& seg.enabled == flag_at(d, p)
    &&& seg.update_map == seg_updates_map(d, p)
    &&& seg.temporal_update == seg_temporal(d, p)
    &&& forall|i: int|
        0 <= i < 7 ==> #[trigger] seg.tree_probs[i] == if seg_updates_map(d, p) {
            prob_at(d, probs_end(d, p + 2, i as nat))
        } else {
            255
        }
    &&& forall|i: int|
        0 <= i < 3 ==> #[trigger] seg.pred_prob[i] == if seg_temporal(d, p) {
            prob_at(d, probs_end(d, temporal_pos(d, p) + 1, i as nat))
        } else {
            255
        }
    &&& seg.abs_or_delta_update == if seg_updates_data(d, p) {
        flag_at(d, q + 1)
    } else {
        !reset && prev.abs_or_delta
    }
    &&& forall|s: int, l: int|
        0 <= s < MAX_SEGMENTS && 0 <= l < SEG_LVL_MAX ==> #[trigger] seg.feature_enabled[s][l]
            == if seg_updates_data(d, p) {
            flag_at(d, feature_pos(d, q + 2, (4 * s + l) as nat))
        } else {
            base_enabled(reset, prev, s, l)
        }
    &&& forall|s: int, l: int|
        0 <= s < MAX_SEGMENTS && 0 <= l < SEG_LVL_MAX ==> #[trigger] seg.feature_data[s][l]
            == if seg_updates_data(d, p) {
            feature_value_at(d, feature_pos(d, q + 2, (4 * s + l) as nat), l)
        } else {
            base_data(reset, prev, s, l)
        }
}

/// Where the segmentation parameters end.
pub open spec fn segmentation_end(d: Seq<u8>, p: int) -> int {
    if !flag_at(d, p) {
        p + 1
    } else if seg_updates_data(d, p) {
        feature_pos(d, update_data_pos(d, p) + 2, 32)
    } else {
        update_data_pos(d, p) + 1
    }
}

/// The most bits that segmentation parameters can take.
pub const SEGMENTATION_MAX_BITS: usize = 512;

proof fn lemma_probs_end_step(d: Seq<u8>, p: int, n: nat)
    ensures
        probs_end(d, probs_end(d, p, n), 1) == probs_end(d, p, n + 1),
{
    reveal_with_fuel(probs_end, 2);
}

/// Reads a run of `N` probabilities.
fn read_probs<const N: usize>(r: &mut BitReader) -> (probs: [u8; N])
    requires
        old(r).pos() + 9 * N <= usize::MAX,
    ensures
        forall|i: int|
            0 <= i < N ==> #[trigger] probs[i] == prob_at(
                old(r).bytes(),
                probs_end(old(r).bytes(), old(r).pos(), i as nat),
            ),
        final(r).bytes() == old(r).bytes(),
        final(r).pos() == probs_end(old(r).bytes(), old(r).pos(), N as nat),
        final(r).pos() <= old(r).pos() + 9 * N,
{
    let ghost d = r.bytes();
    let ghost p = r.pos();
    let mut probs: [u8; N] = [255; N];
    for i in 0..N
        invariant
            p + 9 * N <= usize::MAX,
            r.bytes() == d,
            r.pos() == probs_end(d, p, i as nat),
            r.pos() <= p + 9 * i,
            forall|k: int|
                0 <= k < i ==> #[trigger] probs[k] == prob_at(d, probs_end(d, p, k as nat)),
    {
        proof {
            lemma_probs_end_step(d, p, i as nat);
        }
        probs[i] = read_prob(r);
    }
    probs
}

/// Reads one segment feature: whether it is enabled, and its value.
fn read_feature(r: &mut BitReader, level: usize) -> (v: (bool, i32))
    requires
        level < SEG_LVL_MAX,
        old(r).pos() + 10 <= usize::MAX,
    ensures
        v.0 == flag_at(old(r).bytes(), old(r).pos()),
        v.1 == feature_value_at(old(r).bytes(), old(r).pos(), level as int),
        final(r).bytes() == old(r).bytes(),
        final(r).pos() == feature_end(old(r).bytes(), old(r).pos(), level as int),
        final(r).pos() <= old(r).pos() + 10,
{
    let enabled: bool = r.flag();
    let mut value: i32 = 0;
    if enabled {
        let bits: u32 = SEGMENTATION_FEATURE_BITS[level];
        proof {
            lemma_bits_value_range(r.bytes(), r.pos(), bits as nat);
        }
        value = r.f(bits) as i32;
        if SEGMENTATION_FEATURE_SIGNED[level] {
            if r.flag() {
                value = -value;
            }
        }
    }
    (enabled, value)
}

/// Reads the segmentation parameters. Where `reset` is set, the features start
/// from none; else from those of the frame before.
pub fn parse_segmentation_params(
    r: &mut BitReader,
    reset: bool,
    prev_features: SegFeaturePersist,
) -> (seg: SegmentationParams)
    requires
        old(r).pos() + SEGMENTATION_MAX_BITS <= usize::MAX,
    ensures
        segmentation_at(old(r).bytes(), old(r).pos(), reset, prev_features, seg),
        final(r).bytes() == old(r).bytes(),
        final(r).pos() == segmentation_end(old(r).bytes(), old(r).pos()),
        final(r).pos() <= old(r).pos() + SEGMENTATION_MAX_BITS,
{
    let ghost d = r.bytes();
    let ghost p = r.pos();
    let enabled: bool = r.flag();
    let mut feature_enabled: SegFeatureEnabled = if reset {
        [[false; 4]; 8]
    } else {
        prev_features.enabled
    };
    let mut feature_data: SegFeatureData = if reset { [[0i32; 4]; 8] } else { prev_features.data };
    let mut abs_or_delta_update: bool = !reset && prev_features.abs_or_delta;
    if !enabled {
        return SegmentationParams {
            enabled: false,
            update_map: false,
            tree_probs: [255; 7],
            pred_prob: [255; 3],
            temporal_update: false,
            abs_or_delta_update,
            feature_enabled,
            feature_data,
        };
    }
    let update_map: bool = r.flag();
    let mut tree_probs: [u8; 7] = [255; 7];
    let mut pred_prob: [u8; 3] = [255; 3];
    let mut temporal_update: bool = false;
    if update_map {
        tree_probs = read_probs::<7>(r);
        temporal_update = r.flag();
        if temporal_update {
            pred_prob = read_probs::<3>(r);
        }
    }
    assert(r.pos() == update_data_pos(d, p));
    let update_data: bool = r.flag();
    if update_data {
        abs_or_delta_update = r.flag();
        let ghost f = r.pos();
        for s in 0..8usize
            invariant
                r.bytes() == d,
                f <= p + 96,
                p + SEGMENTATION_MAX_BITS <= usize::MAX,
                r.pos() == feature_pos(d, f, (4 * s) as nat),
                r.pos() <= f + 40 * s,
                forall|s2: int, l: int|
                    0 <= s2 < s && 0 <= l < 4 ==> #[trigger] feature_enabled[s2][l] == flag_at(
                        d,
                        feature_pos(d, f, (4 * s2 + l) as nat),
                    ),
                forall|s2: int, l: int|
                    0 <= s2 < s && 0 <= l < 4 ==> #[trigger] feature_data[s2][l]
                        == feature_value_at(d, feature_pos(d, f, (4 * s2 + l) as nat), l),
        {
            let mut seg_enabled: [bool; 4] = [false; 4];
            let mut seg_data: [i32; 4] = [0; 4];
            for level in 0..4usize
                invariant
                    r.bytes() == d,
                    s < 8,
                    f <= p + 96,
                    p + SEGMENTATION_MAX_BITS <= usize::MAX,
                    r.pos() == feature_pos(d, f, (4 * s + level) as nat),
                    r.pos() <= f + 40 * s + 10 * level,
                    forall|l: int|
                        0 <= l < level ==> #[trigger] seg_enabled[l] == flag_at(
                            d,
                            feature_pos(d, f, (4 * s + l) as nat),
                        ),
                    forall|l: int|
                        0 <= l < level ==> #[trigger] seg_data[l] == feature_value_at(
                            d,
                            feature_pos(d, f, (4 * s + l) as nat),
                            l,
                        ),
            {
                assert((4 * s + level) % 4 == level);
                let (bit, value) = read_feature(r, level);
                seg_enabled[level] = bit;
                seg_data[level] = value;
            }
            feature_enabled[s] = seg_enabled;
            feature_data[s] = seg_data;
        }
    }
    SegmentationParams {
        enabled,
        update_map,
        tree_probs,
        pred_prob,
        temporal_update,
        abs_or_delta_update,
        feature_enabled,
        feature_data,
    }
}

// ---------------------------------------------------------------------------
// Tiles.
// ---------------------------------------------------------------------------

/// One flag per doubling, starting from `cur` doublings, until a flag is not
/// set or the limit is reached.
pub open spec fn tile_cols_log2_from(d: Seq<u8>, p: int, cur: int, max: int) -> int
    decreases max - cur,
{
    if cur < max && flag_at(d, p) {
        tile_cols_log2_from(d, p + 1, cur + 1, max)
    } else {
        cur
    }
}

/// Where those flags end.
pub open spec fn tile_cols_end(d: Seq<u8>, p: int, cur: int, max: int) -> int {
    let last = tile_cols_log2_from(d, p, cur, max);
    p + (last - cur) + if last < max { 1int } else { 0int }
}

/// The number of doublings of tile columns.
pub open spec fn tile_cols_log2_at(d: Seq<u8>, p: int, sb64_cols: int) -> int {
    tile_cols_log2_from(d, p, min_log2_tile_cols(sb64_cols), max_log2_tile_cols(sb64_cols))
}

/// Where the tile columns end and the tile rows start.
pub open spec fn tile_rows_pos(d: Seq<u8>, p: int, sb64_cols: int) -> int {
    tile_cols_end(d, p, min_log2_tile_cols(sb64_cols), max_log2_tile_cols(sb64_cols))
}

/// The number of doublings of tile rows: one flag, and a second one where it is
/// set.
pub open spec fn tile_rows_log2_at(d: Seq<u8>, q: int) -> int {
    if flag_at(d, q) {
        1 + bit_at(d, q + 1)
    } else {
        0
    }
}

/// Where the tile layout ends.
pub open spec fn tile_info_end(d: Seq<u8>, p: int, sb64_cols: int) -> int {
    let q = tile_rows_pos(d, p, sb64_cols);
    q + if flag_at(d, q) { 2int } else { 1int }
}

proof fn lemma_tile_cols_from(d: Seq<u8>, p: int, cur: int, max: int)
    ensures
        cur <= tile_cols_log2_from(d, p, cur, max),
        cur <= max ==> tile_cols_log2_from(d, p, cur, max) <= max,
        cur > max ==> tile_cols_log2_from(d, p, cur, max) == cur,
    decreases max - cur,
{
    if cur < max && flag_at(d, p) {
        lemma_tile_cols_from(d, p + 1, cur + 1, max);
    }
}

fn parse_tile_info(r: &mut BitReader, sb64_cols: u32) -> (t: (u32, u32))
    requires
        sb64_cols < u32::MAX,
        old(r).pos() + 40 <= usize::MAX,
    ensures
        t.0 == tile_cols_log2_at(old(r).bytes(), old(r).pos(), sb64_cols as int),
        t.1 == tile_rows_log2_at(
            old(r).bytes(),
            tile_rows_pos(old(r).bytes(), old(r).pos(), sb64_cols as int),
        ),
        t.0 <= 32,
        t.1 <= 2,
        final(r).bytes() == old(r).bytes(),
        final(r).pos() == tile_info_end(old(r).bytes(), old(r).pos(), sb64_cols as int),
        final(r).pos() <= old(r).pos() + 40,
{
    let ghost d = r.bytes();
    let ghost p = r.pos();
    let min_log2: u32 = calc_min_log2_tile_cols(sb64_cols);
    let max_log2: u32 = calc_max_log2_tile_cols(sb64_cols);
    let mut tile_cols_log2: u32 = min_log2;
    let mut more: bool = true;
    let ghost goal = tile_cols_log2_from(d, p, min_log2 as int, max_log2 as int);
    while more && tile_cols_log2 < max_log2
        invariant
            r.bytes() == d,
            p + 40 <= usize::MAX,
            min_log2 <= tile_cols_log2,
            min_log2 <= 32,
            tile_cols_log2 <= 32,
            max_log2 <= 32,
            tile_cols_log2 > min_log2 ==> tile_cols_log2 <= max_log2,
            more ==> r.pos() == p + (tile_cols_log2 - min_log2) && goal == tile_cols_log2_from(
                d,
                r.pos(),
                tile_cols_log2 as int,
                max_log2 as int,
            ),
            !more ==> goal == tile_cols_log2 && goal < max_log2 && r.pos() == p + (tile_cols_log2
                - min_log2) + 1,
        decreases max_log2 - tile_cols_log2, if more { 1int } else { 0int },
    {
        more = r.flag();
        if more {
            tile_cols_log2 += 1;
        }
    }
    proof {
        lemma_bit_at_range(d, r.pos());
        lemma_bit_at_range(d, r.pos() + 1);
        reveal_with_fuel(bits_value, 2);
    }
    assert(r.pos() == tile_cols_end(d, p, min_log2 as int, max_log2 as int));
    let mut tile_rows_log2: u32 = r.f(1);
    if tile_rows_log2 == 1 {
        tile_rows_log2 += r.f(1);
    }
    (tile_cols_log2, tile_rows_log2)
}

// ---------------------------------------------------------------------------
// The header as a whole.
// ---------------------------------------------------------------------------

/// The header starts with the frame marker.
pub open spec fn marker_ok(d: Seq<u8>) -> bool {
    bits_value(d, 0, 2) == 2
}

/// The profile; its low bit comes first.
pub open spec fn profile_of(d: Seq<u8>) -> u8 {
    (2 * bit_at(d, 3) + bit_at(d, 2)) as u8
}

/// Where the flag for showing an existing frame stands: after a reserved bit in
/// profile 3.
pub open spec fn show_existing_pos(d: Seq<u8>) -> int {
    if profile_of(d) == 3 {
        5
    } else {
        4
    }
}

/// The header only asks to show an existing frame.
pub open spec fn shows_existing(d: Seq<u8>) -> bool {
    flag_at(d, show_existing_pos(d))
}

/// A key frame.
pub open spec fn is_key(d: Seq<u8>) -> bool {
    !flag_at(d, show_existing_pos(d) + 1)
}

/// The frame is shown.
pub open spec fn is_shown(d: Seq<u8>) -> bool {
    flag_at(d, show_existing_pos(d) + 2)
}

/// The frame is error resilient.
pub open spec fn is_resilient(d: Seq<u8>) -> bool {
    flag_at(d, show_existing_pos(d) + 3)
}

/// Where the fields start that depend on the kind of frame.
pub open spec fn kind_pos(d: Seq<u8>) -> int {
    show_existing_pos(d) + 4
}

/// An intra-only frame; only a hidden frame can be one.
pub open spec fn is_intra_only(d: Seq<u8>) -> bool {
    !is_key(d) && !is_shown(d) && flag_at(d, kind_pos(d))
}

/// The frame uses no other frame.
pub open spec fn is_intra(d: Seq<u8>) -> bool {
    is_key(d) || is_intra_only(d)
}

/// The frame starts without any state of earlier frames.
pub open spec fn resets_past(d: Seq<u8>) -> bool {
    is_intra(d) || is_resilient(d)
}

/// Where the context reset code of a non-key frame stands.
pub open spec fn reset_pos(d: Seq<u8>) -> int {
    kind_pos(d) + if is_shown(d) { 0int } else { 1int }
}

/// The context reset code.
pub open spec fn reset_code(d: Seq<u8>) -> int {
    if is_key(d) || is_resilient(d) {
        0
    } else {
        bits_value(d, reset_pos(d), 2)
    }
}

/// Where the sync code (of an intra frame) or the refresh flags (of an inter
/// frame) stand.
pub open spec fn body_pos(d: Seq<u8>) -> int {
    if is_key(d) {
        kind_pos(d)
    } else {
        reset_pos(d) + if is_resilient(d) { 0int } else { 2int }
    }
}

/// The sync code is right.
pub open spec fn sync_ok(d: Seq<u8>) -> bool {
    let p = body_pos(d);
    bits_value(d, p, 8) == 0x49 && bits_value(d, p + 8, 8) == 0x83 && bits_value(d, p + 16, 8)
        == 0x42
}

/// The header holds a color config.
pub open spec fn has_color_config(d: Seq<u8>) -> bool {
    is_key(d) || (is_intra_only(d) && profile_of(d) > 0)
}

/// Where what follows the sync code and the color config starts.
pub open spec fn after_color_pos(d: Seq<u8>) -> int {
    let p = body_pos(d) + 24;
    if has_color_config(d) {
        color_config_end(d, p, profile_of(d))
    } else {
        p
    }
}

/// The format of an intra-only frame of profile 0, which does not code it.
pub open spec fn implied_color_config() -> ColorConfig {
    ColorConfig {
        bit_depth: 8,
        color_space: CS_BT_601,
        color_range: false,
        subsampling_x: 1,
        subsampling_y: 1,
    }
}

/// The format that the header gives; none for an inter frame.
pub open spec fn color_config_of(d: Seq<u8>) -> Option<ColorConfig> {
    if has_color_config(d) {
        Some(color_config_at(d, body_pos(d) + 24, profile_of(d)))
    } else if is_intra_only(d) {
        Some(implied_color_config())
    } else {
        None
    }
}

/// The slots to refresh.
pub open spec fn refresh_flags_of(d: Seq<u8>) -> int {
    if is_key(d) {
        0xff
    } else if is_intra_only(d) {
        bits_value(d, after_color_pos(d), 8)
    } else {
        bits_value(d, body_pos(d), 8)
    }
}

/// The slot of reference `i`.
pub open spec fn ref_idx_of(d: Seq<u8>, i: int) -> int {
    if is_intra(d) {
        0
    } else {
        bits_value(d, body_pos(d) + 8 + 4 * i, 3)
    }
}

/// The sign bias of reference frame type `t`.
pub open spec fn sign_bias_of(d: Seq<u8>, t: int) -> bool {
    !is_intra(d) && t >= 1 && flag_at(d, body_pos(d) + 8 + 4 * (t - 1) + 3)
}

/// Where the frame size stands.
pub open spec fn size_pos(d: Seq<u8>) -> int {
    if is_key(d) {
        after_color_pos(d)
    } else if is_intra_only(d) {
        after_color_pos(d) + 8
    } else {
        body_pos(d) + 20
    }
}

/// The frame size.
pub open spec fn frame_size_of(d: Seq<u8>, prev: PersistentState) -> (u32, u32) {
    if is_intra(d) {
        size_at(d, size_pos(d))
    } else {
        size_with_refs_at(
            d,
            size_pos(d),
            Seq::new(3, |i: int| ref_idx_of(d, i) as u8),
            prev.ref_frame_sizes@,
        )
    }
}

/// Where the render size stands.
pub open spec fn render_pos(d: Seq<u8>) -> int {
    if is_intra(d) {
        size_pos(d) + 32
    } else {
        size_with_refs_end(d, size_pos(d))
    }
}

/// Where the render size ends.
pub open spec fn after_render_pos(d: Seq<u8>) -> int {
    render_size_end(d, render_pos(d))
}

/// Where the context flags stand.
pub open spec fn context_pos(d: Seq<u8>) -> int {
    if is_intra(d) {
        after_render_pos(d)
    } else {
        interpolation_filter_end(d, after_render_pos(d) + 1)
    }
}

/// Where the context index stands.
pub open spec fn context_idx_pos(d: Seq<u8>) -> int {
    context_pos(d) + if is_resilient(d) { 0int } else { 2int }
}

/// Where the quantization parameters stand.
pub open spec fn quantization_pos(d: Seq<u8>) -> int {
    loop_filter_end(d, context_idx_pos(d) + 2)
}

/// Where the segmentation parameters stand.
pub open spec fn segmentation_pos(d: Seq<u8>) -> int {
    quantization_end(d, quantization_pos(d))
}

/// Where the tile layout stands.
pub open spec fn tile_pos(d: Seq<u8>) -> int {
    segmentation_end(d, segmentation_pos(d))
}

/// The width of the frame in superblocks.
pub open spec fn sb_cols_of(d: Seq<u8>, prev: PersistentState) -> int {
    units8(units8(frame_size_of(d, prev).0 as int))
}

/// Where the size of the compressed header stands.
pub open spec fn header_size_pos(d: Seq<u8>, prev: PersistentState) -> int {
    tile_info_end(d, tile_pos(d), sb_cols_of(d, prev))
}

/// What the header of a new frame holds.
pub open spec fn header_at(d: Seq<u8>, prev: PersistentState, h: NewFrameHeader) -> bool {
    &&& h.profile == profile_of(d)
    &&& (h.frame_type == FrameType::KeyFrame) == is_key(d)
    &&& h.show_frame == is_shown(d)
    &&& h.error_resilient_mode == is_resilient(d)
    &&& h.frame_is_intra == is_intra(d)
    &&& h.intra_only == is_intra_only(d)
    &&& h.reset_frame_context == reset_code(d)
    &&& h.color_config == color_config_of(d)
    &&& (h.width, h.height) == frame_size_of(d, prev)
    &&& (h.render_width, h.render_height) == render_size_at(
        d,
        render_pos(d),
        frame_size_of(d, prev),
    )
    &&& h.refresh_frame_flags == refresh_flags_of(d)
    &&& forall|i: int| 0 <= i < 3 ==> #[trigger] h.ref_frame_idx[i] == ref_idx_of(d, i)
    &&& forall|t: int| 0 <= t < 4 ==> #[trigger] h.ref_frame_sign_bias[t] == sign_bias_of(d, t)
    &&& h.allow_high_precision_mv == (!is_intra(d) && flag_at(d, after_render_pos(d)))
    &&& h.interpolation_filter == if is_intra(d) {
        SWITCHABLE
    } else {
        interpolation_filter_at(d, after_render_pos(d) + 1)
    }
    &&& h.refresh_frame_context == (!is_resilient(d) && flag_at(d, context_pos(d)))
    &&& h.frame_parallel_decoding_mode == (is_resilient(d) || flag_at(d, context_pos(d) + 1))
    &&& h.frame_context_idx == bits_value(d, context_idx_pos(d), 2)
    &&& loop_filter_at(
        d,
        context_idx_pos(d) + 2,
        resets_past(d),
        prev.loop_filter_deltas,
        h.loop_filter,
    )
    &&& h.quantization == quantization_at(d, quantization_pos(d))
    &&& segmentation_at(
        d,
        segmentation_pos(d),
        resets_past(d),
        prev.segmentation,
        h.segmentation,
    )
    &&& h.tile_cols_log2 == tile_cols_log2_at(d, tile_pos(d), sb_cols_of(d, prev))
    &&& h.tile_rows_log2 == tile_rows_log2_at(
        d,
        tile_rows_pos(d, tile_pos(d), sb_cols_of(d, prev)),
    )
    &&& h.header_size_in_bytes == bits_value(d, header_size_pos(d, prev), 16)
}

/// The fields that depend on the kind of frame.
struct KindFields {
    frame_is_intra: bool,
    intra_only: bool,
    reset_frame_context: u8,
    color_config: Option<ColorConfig>,
    width: u32,
    height: u32,
    render_width: u32,
    render_height: u32,
    refresh_frame_flags: u8,
    ref_frame_idx: [u8; 3],
    ref_frame_sign_bias: [bool; 4],
    allow_high_precision_mv: bool,
    interpolation_filter: u8,
}

spec fn kind_fields_at(d: Seq<u8>, prev: PersistentState, k: KindFields) -> bool {
    &&& k.frame_is_intra == is_intra(d)
    &&& k.intra_only == is_intra_only(d)
    &&& k.reset_frame_context == reset_code(d)
    &&& k.color_config == color_config_of(d)
    &&& (k.width, k.height) == frame_size_of(d, prev)
    &&& (k.render_width, k.render_height) == render_size_at(
        d,
        render_pos(d),
        frame_size_of(d, prev),
    )
    &&& k.refresh_frame_flags == refresh_flags_of(d)
    &&& forall|i: int| 0 <= i < 3 ==> #[trigger] k.ref_frame_idx[i] == ref_idx_of(d, i)
    &&& forall|t: int| 0 <= t < 4 ==> #[trigger] k.ref_frame_sign_bias[t] == sign_bias_of(d, t)
    &&& k.allow_high_precision_mv == (!is_intra(d) && flag_at(d, after_render_pos(d)))
    &&& k.interpolation_filter == if is_intra(d) {
        SWITCHABLE
    } else {
        interpolation_filter_at(d, after_render_pos(d) + 1)
    }
}

fn parse_sync_code(r: &mut BitReader) -> (ok: bool)
    requires
        old(r).pos() + 24 <= usize::MAX,
    ensures
        ok == (bits_value(old(r).bytes(), old(r).pos(), 8) == 0x49 && bits_value(
            old(r).bytes(),
            old(r).pos() + 8,
            8,
        ) == 0x83 && bits_value(old(r).bytes(), old(r).pos() + 16, 8) == 0x42),
        final(r).bytes() == old(r).bytes(),
        final(r).pos() == old(r).pos() + 24,
{
    let a: u32 = r.f(8);
    let b: u32 = r.f(8);
    let c: u32 = r.f(8);
    a == 0x49 && b == 0x83 && c == 0x42
}

/// The errors that the kind-dependent fields can have.
spec fn kind_error(d: Seq<u8>, e: HeaderError) -> bool {
    match e {
        HeaderError::InvalidSyncCode => is_intra(d) && !sync_ok(d),
        HeaderError::InvalidColorConfigForProfile => {
            &&& is_intra(d)
            &&& sync_ok(d)
            &&& has_color_config(d)
            &&& !color_config_ok(d, body_pos(d) + 24, profile_of(d))
        },
        _ => false,
    }
}

/// The kind-dependent fields have no error.
spec fn kind_ok(d: Seq<u8>) -> bool {
    &&& is_intra(d) ==> sync_ok(d)
    &&& has_color_config(d) ==> color_config_ok(d, body_pos(d) + 24, profile_of(d))
}

fn parse_key_frame_fields(
    r: &mut BitReader,
    profile: u8,
    Ghost(prev): Ghost<PersistentState>,
) -> (k: Result<
    KindFields,
    HeaderError,
>)
    requires
        old(r).pos() == kind_pos(old(r).bytes()),
        old(r).pos() <= 16,
        is_key(old(r).bytes()),
        profile == profile_of(old(r).bytes()),
    ensures
        match k {
            Ok(k) => {
                &&& kind_ok(old(r).bytes())
                &&& kind_fields_at(old(r).bytes(), prev, k)
                &&& k.width <= 0x1_0000
                &&& k.height <= 0x1_0000
                &&& final(r).pos() == context_pos(old(r).bytes())
            },
            Err(e) => kind_error(old(r).bytes(), e),
        },
        final(r).bytes() == old(r).bytes(),
        final(r).pos() <= 200,
{
    if !parse_sync_code(r) {
        return Err(HeaderError::InvalidSyncCode);
    }
    let color_config: ColorConfig = match parse_color_config(r, profile) {
        Ok(c) => c,
        Err(e) => {
            return Err(e);
        },
    };
    let (width, height) = parse_frame_size(r);
    let (render_width, render_height) = parse_render_size(r, width, height);
    Ok(
        KindFields {
            frame_is_intra: true,
            intra_only: false,
            reset_frame_context: 0,
            color_config: Some(color_config),
            width,
            height,
            render_width,
            render_height,
            refresh_frame_flags: 0xff,
            ref_frame_idx: [0; 3],
            ref_frame_sign_bias: [false; 4],
            allow_high_precision_mv: false,
            interpolation_filter: SWITCHABLE,
        },
    )
}

fn parse_intra_only_fields(
    r: &mut BitReader,
    profile: u8,
    reset_frame_context: u8,
    Ghost(prev): Ghost<PersistentState>,
) -> (k: Result<KindFields, HeaderError>)
    requires
        old(r).pos() == body_pos(old(r).bytes()),
        old(r).pos() <= 24,
        is_intra_only(old(r).bytes()),
        profile == profile_of(old(r).bytes()),
        reset_frame_context == reset_code(old(r).bytes()),
    ensures
        match k {
            Ok(k) => {
                &&& kind_ok(old(r).bytes())
                &&& kind_fields_at(old(r).bytes(), prev, k)
                &&& k.width <= 0x1_0000
                &&& k.height <= 0x1_0000
                &&& final(r).pos() == context_pos(old(r).bytes())
            },
            Err(e) => kind_error(old(r).bytes(), e),
        },
        final(r).bytes() == old(r).bytes(),
        final(r).pos() <= 200,
{
    if !parse_sync_code(r) {
        return Err(HeaderError::InvalidSyncCode);
    }
    let color_config: ColorConfig = if profile > 0 {
        match parse_color_config(r, profile) {
            Ok(c) => c,
            Err(e) => {
                return Err(e);
            },
        }
    } else {
        ColorConfig {
            bit_depth: 8,
            color_space: CS_BT_601,
            color_range: false,
            subsampling_x: 1,
            subsampling_y: 1,
        }
    };
    proof {
        lemma_bits_value_range(r.bytes(), r.pos(), 8);
    }
    let refresh_frame_flags: u8 = r.f(8) as u8;
    let (width, height) = parse_frame_size(r);
    let (render_width, render_height) = parse_render_size(r, width, height);
    Ok(
        KindFields {
            frame_is_intra: true,
            intra_only: true,
            reset_frame_context,
            color_config: Some(color_config),
            width,
            height,
            render_width,
            render_height,
            refresh_frame_flags,
            ref_frame_idx: [0; 3],
            ref_frame_sign_bias: [false; 4],
            allow_high_precision_mv: false,
            interpolation_filter: SWITCHABLE,
        },
    )
}

fn parse_inter_fields(r: &mut BitReader, reset_frame_context: u8, prev: &PersistentState) -> (k:
    KindFields)
    requires
        old(r).pos() == body_pos(old(r).bytes()),
        old(r).pos() <= 24,
        !is_intra(old(r).bytes()),
        reset_frame_context == reset_code(old(r).bytes()),
        prev.sizes_ok(),
    ensures
        kind_ok(old(r).bytes()),
        kind_fields_at(old(r).bytes(), *prev, k),
        k.width <= u32::MAX - 7,
        k.height <= u32::MAX - 7,
        final(r).pos() == context_pos(old(r).bytes()),
        final(r).bytes() == old(r).bytes(),
        final(r).pos() <= 200,
{
    let ghost d = r.bytes();
    let ghost p = r.pos();
    proof {
        lemma_bits_value_range(d, p, 8);
    }
    let refresh_frame_flags: u8 = r.f(8) as u8;
    let mut ref_frame_idx: [u8; 3] = [0; 3];
    let mut ref_frame_sign_bias: [bool; 4] = [false; 4];
    for i in 0..3usize
        invariant
            p == body_pos(d),
            p <= 24,
            !is_intra(d),
            r.bytes() == d,
            r.pos() == p + 8 + 4 * i,
            !ref_frame_sign_bias[0],
            forall|k: int|
                0 <= k < i ==> #[trigger] ref_frame_idx[k] == ref_idx_of(d, k) && ref_frame_idx[k]
                    < NUM_REF_FRAMES,
            forall|t: int|
                1 <= t <= i ==> #[trigger] ref_frame_sign_bias[t] == sign_bias_of(d, t),
    {
        proof {
            lemma_bits_value_range(d, r.pos(), 3);
        }
        ref_frame_idx[i] = r.f(3) as u8;
        ref_frame_sign_bias[i + 1] = r.flag();
    }
    let (width, height) = parse_frame_size_with_refs(r, &ref_frame_idx, &prev.ref_frame_sizes);
    assert(Seq::new(3, |i: int| ref_idx_of(d, i) as u8) =~= ref_frame_idx@);
    let (render_width, render_height) = parse_render_size(r, width, height);
    let allow_high_precision_mv: bool = r.flag();
    let interpolation_filter: u8 = parse_interpolation_filter(r);
    KindFields {
        frame_is_intra: false,
        intra_only: false,
        reset_frame_context,
        color_config: None,
        width,
        height,
        render_width,
        render_height,
        refresh_frame_flags,
        ref_frame_idx,
        ref_frame_sign_bias,
        allow_high_precision_mv,
        interpolation_filter,
    }
}

/// Reads the fields that depend on the kind of frame.
fn parse_kind_fields(
    r: &mut BitReader,
    profile: u8,
    frame_type: FrameType,
    show_frame: bool,
    error_resilient_mode: bool,
    prev: &PersistentState,
) -> (k: Result<KindFields, HeaderError>)
    requires
        old(r).pos() == kind_pos(old(r).bytes()),
        old(r).pos() <= 16,
        profile == profile_of(old(r).bytes()),
        (frame_type == FrameType::KeyFrame) == is_key(old(r).bytes()),
        show_frame == is_shown(old(r).bytes()),
        error_resilient_mode == is_resilient(old(r).bytes()),
        prev.sizes_ok(),
    ensures
        match k {
            Ok(k) => {
                &&& kind_ok(old(r).bytes())
                &&& kind_fields_at(old(r).bytes(), *prev, k)
                &&& k.width <= u32::MAX - 7
                &&& k.height <= u32::MAX - 7
                &&& final(r).pos() == context_pos(old(r).bytes())
            },
            Err(e) => kind_error(old(r).bytes(), e),
        },
        final(r).bytes() == old(r).bytes(),
        final(r).pos() <= 200,
{
    if frame_type == FrameType::KeyFrame {
        return parse_key_frame_fields(r, profile, Ghost(*prev));
    }
    let intra_only: bool = if !show_frame {
        r.flag()
    } else {
        false
    };
    let reset_frame_context: u8 = if !error_resilient_mode {
        proof {
            lemma_bits_value_range(r.bytes(), r.pos(), 2);
        }
        r.f(2) as u8
    } else {
        0
    };
    if intra_only {
        parse_intra_only_fields(r, profile, reset_frame_context, Ghost(*prev))
    } else {
        Ok(parse_inter_fields(r, reset_frame_context, prev))
    }
}

/// The fields that every new frame has at the end of its header.
struct TailFields {
    refresh_frame_context: bool,
    frame_parallel_decoding_mode: bool,
    frame_context_idx: u8,
    loop_filter: LoopFilterParams,
    quantization: QuantizationParams,
    segmentation: SegmentationParams,
    tile_cols_log2: u32,
    tile_rows_log2: u32,
    header_size_in_bytes: u16,
}

/// Reads the fields at the end of the header. `start` is where they start.
fn parse_tail_fields(
    r: &mut BitReader,
    error_resilient_mode: bool,
    reset: bool,
    sb64_cols: u32,
    prev: &PersistentState,
) -> (t: TailFields)
    requires
        old(r).pos() <= 200,
        sb64_cols < u32::MAX,
    ensures
        tail_fields_at(
            old(r).bytes(),
            old(r).pos(),
            error_resilient_mode,
            reset,
            sb64_cols as int,
            *prev,
            t,
        ),
        final(r).bytes() == old(r).bytes(),
        final(r).pos() == tail_end(
            old(r).bytes(),
            old(r).pos(),
            error_resilient_mode,
            sb64_cols as int,
        ),
        final(r).pos() <= 2000,
{
    let ghost d = r.bytes();
    let mut refresh_frame_context: bool = false;
    let mut frame_parallel_decoding_mode: bool = true;
    if !error_resilient_mode {
        refresh_frame_context = r.flag();
        frame_parallel_decoding_mode = r.flag();
    }
    proof {
        lemma_bits_value_range(d, r.pos(), 2);
    }
    let frame_context_idx: u8 = r.f(2) as u8;
    let loop_filter: LoopFilterParams = parse_loop_filter_params(r, reset, prev.loop_filter_deltas);
    let quantization: QuantizationParams = parse_quantization_params(r);
    let segmentation: SegmentationParams = parse_segmentation_params(r, reset, prev.segmentation);
    let (tile_cols_log2, tile_rows_log2) = parse_tile_info(r, sb64_cols);
    proof {
        lemma_bits_value_range(d, r.pos(), 16);
    }
    let header_size_in_bytes: u16 = r.f(16) as u16;
    TailFields {
        refresh_frame_context,
        frame_parallel_decoding_mode,
        frame_context_idx,
        loop_filter,
        quantization,
        segmentation,
        tile_cols_log2,
        tile_rows_log2,
        header_size_in_bytes,
    }
}

spec fn tail_tile_pos(d: Seq<u8>, p: int, resilient: bool) -> int {
    let c = p + if resilient { 0int } else { 2int };
    segmentation_end(d, quantization_end(d, loop_filter_end(d, c + 2)))
}

spec fn tail_end(d: Seq<u8>, p: int, resilient: bool, sb: int) -> int {
    tile_info_end(d, tail_tile_pos(d, p, resilient), sb) + 16
}

spec fn tail_fields_at(
    d: Seq<u8>,
    p: int,
    resilient: bool,
    reset: bool,
    sb: int,
    prev: PersistentState,
    t: TailFields,
) -> bool {
    let c = p + if resilient { 0int } else { 2int };
    let q = loop_filter_end(d, c + 2);
    let tile = tail_tile_pos(d, p, resilient);
    &&& t.refresh_frame_context == (!resilient && flag_at(d, p))
    &&& t.frame_parallel_decoding_mode == (resilient || flag_at(d, p + 1))
    &&& t.frame_context_idx == bits_value(d, c, 2)
    &&& loop_filter_at(d, c + 2, reset, prev.loop_filter_deltas, t.loop_filter)
    &&& t.quantization == quantization_at(d, q)
    &&& segmentation_at(d, quantization_end(d, q), reset, prev.segmentation, t.segmentation)
    &&& t.tile_cols_log2 == tile_cols_log2_at(d, tile, sb)
    &&& t.tile_rows_log2 == tile_rows_log2_at(d, tile_rows_pos(d, tile, sb))
    &&& t.header_size_in_bytes == bits_value(d, tile_info_end(d, tile, sb), 16)
}

/// Reads an uncompressed header. `prev` is what it needs to know of earlier
/// frames.
///
/// Gives the header and the number of bytes that it takes, the last one
/// included where it is not full.
#[verifier::rlimit(60)]
pub fn parse_uncompressed_header(data: &[u8], prev: &PersistentState) -> (res: Result<
    (FrameHeader, usize),
    HeaderError,
>)
    requires
        prev.sizes_ok(),
    ensures
        match res {
            Ok((FrameHeader::ShowExistingFrame { frame_to_show_map_idx }, consumed)) => {
                &&& marker_ok(data@)
                &&& shows_existing(data@)
                &&& frame_to_show_map_idx == bits_value(data@, show_existing_pos(data@) + 1, 3)
                &&& consumed == units8(show_existing_pos(data@) + 4)
            },
            Ok((FrameHeader::New(h), consumed)) => {
                &&& marker_ok(data@)
                &&& !shows_existing(data@)
                &&& is_intra(data@) ==> sync_ok(data@)
                &&& has_color_config(data@) ==> color_config_ok(
                    data@,
                    body_pos(data@) + 24,
                    profile_of(data@),
                )
                &&& header_at(data@, *prev, h)
                &&& consumed == units8(header_size_pos(data@, *prev) + 16)
            },
            Err(HeaderError::InvalidFrameMarker) => !marker_ok(data@),
            Err(HeaderError::InvalidSyncCode) => {
                &&& marker_ok(data@)
                &&& !shows_existing(data@)
                &&& is_intra(data@)
                &&& !sync_ok(data@)
            },
            Err(HeaderError::InvalidColorConfigForProfile) => {
                &&& marker_ok(data@)
                &&& !shows_existing(data@)
                &&& is_intra(data@)
                &&& sync_ok(data@)
                &&& has_color_config(data@)
                &&& !color_config_ok(data@, body_pos(data@) + 24, profile_of(data@))
            },
            Err(_) => false,
        },
{
    let mut r = BitReader::new(data);
    let ghost d = data@;
    proof {
        reveal_with_fuel(bits_value, 2);
        lemma_bit_at_range(d, 2);
        lemma_bit_at_range(d, 3);
    }
    let frame_marker: u32 = r.f(2);
    if frame_marker != 2 {
        return Err(HeaderError::InvalidFrameMarker);
    }
    let profile_low_bit: u32 = r.f(1);
    let profile_high_bit: u32 = r.f(1);
    let profile: u8 = (2 * profile_high_bit + profile_low_bit) as u8;
    if profile == 3 {
        let _reserved_zero: u32 = r.f(1);
    }
    let show_existing_frame: bool = r.flag();
    if show_existing_frame {
        proof {
            lemma_bits_value_range(d, r.pos(), 3);
        }
        let frame_to_show_map_idx: u8 = r.f(3) as u8;
        let consumed: usize = r.byte_position_ceil();
        return Ok((FrameHeader::ShowExistingFrame { frame_to_show_map_idx }, consumed));
    }
    let frame_type: FrameType = if r.flag() {
        FrameType::NonKeyFrame
    } else {
        FrameType::KeyFrame
    };
    let show_frame: bool = r.flag();
    let error_resilient_mode: bool = r.flag();
    let k: KindFields = match parse_kind_fields(
        &mut r,
        profile,
        frame_type,
        show_frame,
        error_resilient_mode,
        prev,
    ) {
        Ok(k) => k,
        Err(e) => {
            return Err(e);
        },
    };
    let image_size: ImageSize = compute_image_size(k.width, k.height);
    let reset: bool = k.frame_is_intra || error_resilient_mode;
    let t: TailFields = parse_tail_fields(
        &mut r,
        error_resilient_mode,
        reset,
        image_size.sb64_cols,
        prev,
    );
    let consumed: usize = r.byte_position_ceil();
    let h = NewFrameHeader {
        profile,
        frame_type,
        show_frame,
        error_resilient_mode,
        frame_is_intra: k.frame_is_intra,
        intra_only: k.intra_only,
        reset_frame_context: k.reset_frame_context,
        color_config: k.color_config,
        width: k.width,
        height: k.height,
        render_width: k.render_width,
        render_height: k.render_height,
        refresh_frame_flags: k.refresh_frame_flags,
        ref_frame_idx: k.ref_frame_idx,
        ref_frame_sign_bias: k.ref_frame_sign_bias,
        allow_high_precision_mv: k.allow_high_precision_mv,
        interpolation_filter: k.interpolation_filter,
        refresh_frame_context: t.refresh_frame_context,
        frame_parallel_decoding_mode: t.frame_parallel_decoding_mode,
        frame_context_idx: t.frame_context_idx,
        loop_filter: t.loop_filter,
        quantization: t.quantization,
        segmentation: t.segmentation,
        tile_cols_log2: t.tile_cols_log2,
        tile_rows_log2: t.tile_rows_log2,
        header_size_in_bytes: t.header_size_in_bytes,
    };
    Ok((FrameHeader::New(h), consumed))
}

// ---------------------------------------------------------------------------
// What holds of every header.
// ---------------------------------------------------------------------------

/// The most luma samples that a frame may have.
pub const MAX_FRAME_LUMA_SAMPLES: u64 = 0x1000_0000;

/// Segment data is within 8 bits and a sign.
pub open spec fn segment_data_small(data: SegFeatureData) -> bool {
    forall|s: int, l: int|
        0 <= s < MAX_SEGMENTS && 0 <= l < SEG_LVL_MAX ==> -255 <= #[trigger] data[s][l] <= 255
}

impl PersistentState {
    /// The state that a sequence of headers can leave behind.
    pub open spec fn bounded(&self) -> bool {
        &&& forall|i: int|
            0 <= i < NUM_REF_FRAMES ==> (#[trigger] self.ref_frame_sizes[i]).0 <= 0x1_0000
                && self.ref_frame_sizes[i].1 <= 0x1_0000
        &&& segment_data_small(self.segmentation.data)
    }
}

/// The bounds that every header of a new frame keeps.
pub open spec fn header_bounded(h: NewFrameHeader) -> bool {
    &&& h.width <= 0x1_0000
    &&& h.height <= 0x1_0000
    &&& h.frame_context_idx < 4
    &&& h.reset_frame_context < 4
    &&& h.interpolation_filter <= SWITCHABLE
    &&& h.loop_filter.level <= 63
    &&& h.loop_filter.sharpness <= 7
    &&& h.tile_cols_log2 <= 10
    &&& h.tile_rows_log2 <= 2
    &&& segment_data_small(h.segmentation.feature_data)
    &&& forall|i: int| 0 <= i < 3 ==> (#[trigger] h.ref_frame_idx[i]) < NUM_REF_FRAMES
    &&& h.color_config is Some == h.frame_is_intra
    &&& h.color_config matches Some(c) ==> {
        &&& c.bit_depth == 8 || c.bit_depth == 10 || c.bit_depth == 12
        &&& c.subsampling_x <= 1
        &&& c.subsampling_y <= 1
    }
    &&& h.frame_type == FrameType::KeyFrame ==> h.frame_is_intra && h.refresh_frame_flags == 0xff
    &&& h.intra_only ==> h.frame_is_intra && h.frame_type == FrameType::NonKeyFrame
}

proof fn lemma_feature_value_range(d: Seq<u8>, p: int, level: int)
    requires
        0 <= level < 4,
    ensures
        -255 <= feature_value_at(d, p, level) <= 255,
{
    let bits = SEGMENTATION_FEATURE_BITS[level];
    assert(bits <= 8);
    lemma_bits_value_range(d, p + 1, bits as nat);
}

/// Every header of a new frame keeps its bounds.
#[verifier::spinoff_prover]
#[verifier::rlimit(60)]
pub proof fn lemma_header_bounded(d: Seq<u8>, prev: PersistentState, h: NewFrameHeader)
    requires
        prev.bounded(),
        header_at(d, prev, h),
    ensures
        header_bounded(h),
{
    lemma_bits_value_range(d, context_idx_pos(d), 2);
    lemma_bits_value_range(d, reset_pos(d), 2);
    lemma_bits_value_range(d, context_idx_pos(d) + 2, 6);
    lemma_bits_value_range(d, context_idx_pos(d) + 2 + 6, 3);
    lemma_bits_value_range(d, body_pos(d) + 8, 3);
    lemma_bits_value_range(d, body_pos(d) + 12, 3);
    lemma_bits_value_range(d, body_pos(d) + 16, 3);
    lemma_bits_value_range(d, after_render_pos(d) + 2, 2);
    assert(h.interpolation_filter <= SWITCHABLE);
    assert forall|i: int| 0 <= i < 3 implies (#[trigger] h.ref_frame_idx[i]) < NUM_REF_FRAMES by {
        assert(i == 0 || i == 1 || i == 2);
    }
    lemma_frame_size_bounded(d, prev);
    lemma_tile_fields_bounded(d, prev, h);
    lemma_segment_data_bounded(d, prev, h);
    lemma_color_config_bounded(d);
}

proof fn lemma_frame_size_bounded(d: Seq<u8>, prev: PersistentState)
    requires
        prev.bounded(),
    ensures
        frame_size_of(d, prev).0 <= 0x1_0000,
        frame_size_of(d, prev).1 <= 0x1_0000,
{
    let p = size_pos(d);
    lemma_bits_value_range(d, p, 16);
    lemma_bits_value_range(d, p + 16, 16);
    lemma_bits_value_range(d, p + 3, 16);
    lemma_bits_value_range(d, p + 19, 16);
    lemma_bits_value_range(d, body_pos(d) + 8, 3);
    lemma_bits_value_range(d, body_pos(d) + 12, 3);
    lemma_bits_value_range(d, body_pos(d) + 16, 3);
    if !is_intra(d) {
        let idx = Seq::new(3, |i: int| ref_idx_of(d, i) as u8);
        assert(prev.ref_frame_sizes[idx[0] as int].0 <= 0x1_0000);
        assert(prev.ref_frame_sizes[idx[1] as int].0 <= 0x1_0000);
        assert(prev.ref_frame_sizes[idx[2] as int].0 <= 0x1_0000);
    }
}

proof fn lemma_tile_fields_bounded(d: Seq<u8>, prev: PersistentState, h: NewFrameHeader)
    requires
        prev.bounded(),
        header_at(d, prev, h),
    ensures
        h.tile_cols_log2 <= 10,
        h.tile_rows_log2 <= 2,
{
    lemma_frame_size_bounded(d, prev);
    let sb = sb_cols_of(d, prev);
    vstd::arithmetic::power2::lemma2_to64();
    lemma_tile_cols_limits(sb, 4);
    lemma_tile_cols_from(d, tile_pos(d), min_log2_tile_cols(sb), max_log2_tile_cols(sb));
    let q = tile_rows_pos(d, tile_pos(d), sb);
    lemma_bit_at_range(d, q + 1);
}

proof fn lemma_segment_data_bounded(d: Seq<u8>, prev: PersistentState, h: NewFrameHeader)
    requires
        prev.bounded(),
        header_at(d, prev, h),
    ensures
        segment_data_small(h.segmentation.feature_data),
{
    let p = segmentation_pos(d);
    let q = update_data_pos(d, p);
    assert forall|s: int, l: int| 0 <= s < MAX_SEGMENTS && 0 <= l < SEG_LVL_MAX implies -255
        <= #[trigger] h.segmentation.feature_data[s][l] <= 255 by {
        lemma_feature_value_range(d, feature_pos(d, q + 2, (4 * s + l) as nat), l);
        assert(-255 <= prev.segmentation.data[s][l] <= 255);
    }
}

proof fn lemma_color_config_bounded(d: Seq<u8>)
    ensures
        color_config_of(d) is Some == is_intra(d),
        color_config_of(d) matches Some(c) ==> {
            &&& c.bit_depth == 8 || c.bit_depth == 10 || c.bit_depth == 12
            &&& c.subsampling_x <= 1
            &&& c.subsampling_y <= 1
        },
{
    let q = color_space_pos(body_pos(d) + 24, profile_of(d));
    lemma_bit_at_range(d, q + 4);
    lemma_bit_at_range(d, q + 5);
}

/// A header that does not update the deltas or the segment features leaves them
/// as they were; one that starts without the past sets them back first.
pub proof fn lemma_state_carries_over(d: Seq<u8>, prev: PersistentState, h: NewFrameHeader)
    requires
        header_at(d, prev, h),
    ensures
        !resets_past(d) && !lf_updates_deltas(d, context_idx_pos(d) + 2) ==> {
            &&& h.loop_filter.ref_deltas@ == prev.loop_filter_deltas.ref_deltas@
            &&& h.loop_filter.mode_deltas@ == prev.loop_filter_deltas.mode_deltas@
        },
        resets_past(d) && !lf_updates_deltas(d, context_idx_pos(d) + 2) ==> {
            &&& h.loop_filter.ref_deltas@ == DEFAULT_LOOP_FILTER_REF_DELTAS@
            &&& h.loop_filter.mode_deltas@ == DEFAULT_LOOP_FILTER_MODE_DELTAS@
        },
        !resets_past(d) && !seg_updates_data(d, segmentation_pos(d)) ==> forall|s: int, l: int|
            0 <= s < MAX_SEGMENTS && 0 <= l < SEG_LVL_MAX ==> #[trigger] h.segmentation.feature_data[s][l]
                == prev.segmentation.data[s][l],
        resets_past(d) && !seg_updates_data(d, segmentation_pos(d)) ==> forall|s: int, l: int|
            0 <= s < MAX_SEGMENTS && 0 <= l < SEG_LVL_MAX ==> #[trigger] h.segmentation.feature_data[s][l]
                == 0,
{
    let lf = h.loop_filter;
    if !lf_updates_deltas(d, context_idx_pos(d) + 2) {
        if resets_past(d) {
            assert(lf.ref_deltas@ =~= DEFAULT_LOOP_FILTER_REF_DELTAS@);
            assert(lf.mode_deltas@ =~= DEFAULT_LOOP_FILTER_MODE_DELTAS@);
        } else {
            assert(lf.ref_deltas@ =~= prev.loop_filter_deltas.ref_deltas@);
            assert(lf.mode_deltas@ =~= prev.loop_filter_deltas.mode_deltas@);
        }
    }
}

/// The header of an intra frame does not depend on earlier frames.
#[verifier::spinoff_prover]
pub proof fn lemma_intra_header_stands_alone(
    d: Seq<u8>,
    prev: PersistentState,
    other: PersistentState,
    h: NewFrameHeader,
)
    requires
        is_intra(d),
        header_at(d, prev, h),
    ensures
        header_at(d, other, h),
        header_size_pos(d, other) == header_size_pos(d, prev),
{
    assert(frame_size_of(d, prev) == frame_size_of(d, other));
    assert(sb_cols_of(d, prev) == sb_cols_of(d, other));
    assert(resets_past(d));
}

/// The units cover the frame, with less than one unit to spare.
pub proof fn lemma_units_cover(n: int)
    requires
        0 <= n,
    ensures
        n <= 8 * units8(n) < n + 8,
        n <= 64 * units8(units8(n)) < n + 64,
{
}

} // verus!
