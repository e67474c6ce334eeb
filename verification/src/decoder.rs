//! The decoder: one stream, frame by frame.

use std::sync::Arc;
use vstd::arithmetic::power2::pow2;
use vstd::prelude::*;
use crate::bit_reader::{bits_value, lemma_bits_value_range};
use crate::bool_coder::{decoded_bool, loaded_state, BoolCoderError};
use crate::compressed_header::{
    compressed_header_at, default_probs, lemma_default_probs_valid, parse_compressed_header,
    probs_valid, CompressedHeader, CompressedHeaderError, CompressedHeaderProbs, FrameContext,
    FrameContextStore,
};
use crate::counts::{adapt_coef_probs, adapt_noncoef_probs, coefs_adapted, noncoefs_adapted, Counts};
use crate::dpb::{flag_set, Dpb, RefFrameData};
use crate::framebuffer::{cropped, lemma_row_major, lemma_row_major_inverse, row_major, Plane};
use crate::header::{
    body_pos, color_config_ok, compute_image_size, has_color_config, header_at, header_bounded,
    header_size_pos, is_intra, is_shown, lemma_header_bounded, marker_ok, parse_uncompressed_header,
    profile_of, show_existing_pos, shows_existing, sync_ok, units8, ColorConfig, FrameHeader,
    FrameType, HeaderError, ImageSize, LoopFilterDeltas, LoopFilterParams, NewFrameHeader,
    PersistentState, SegFeaturePersist, CS_UNKNOWN, MAX_FRAME_LUMA_SAMPLES, NUM_REF_FRAMES,
};
use crate::loop_filter::plane_filtered;
use crate::superframe::{
    frame_count, frames_of, is_superframe, lemma_frame_start_monotone, split_superframe,
};
use crate::tile::decoder::{
    contexts_started, filter_frame, format_ok, frame_fits, frame_started, frame_visited, BlockLayer,
    TileDecoder,
};
use crate::tile::partition::tiles_of;
use crate::tile::walk::{stop_at, tiles_walked};
use crate::tile::{MiGrid, TileError};

pub mod laws;

verus! {

/// Everything that can go wrong when a frame is decoded.
#[derive(Debug, Clone, Copy, PartialEq, Eq, Structural)]
pub enum DecodeError {
    /// The uncompressed header is invalid, the frame is too large, or a
    /// reference frame has another format.
    Header(HeaderError),
    /// The compressed header is invalid.
    CompressedHeader(CompressedHeaderError),
    /// The tiles are invalid.
    Tile(TileError),
    /// The compressed header goes beyond the end of the frame's data.
    TruncatedFrame,
    /// There is no frame in the slot to be shown.
    MissingReferenceFrame,
}

impl From<HeaderError> for DecodeError {
    fn from(e: HeaderError) -> (r: Self) {
        DecodeError::Header(e)
    }
}

impl vstd::std_specs::convert::FromSpecImpl<HeaderError> for DecodeError {
    open spec fn obeys_from_spec() -> bool {
        true
    }

    open spec fn from_spec(e: HeaderError) -> DecodeError {
        DecodeError::Header(e)
    }
}

impl From<CompressedHeaderError> for DecodeError {
    fn from(e: CompressedHeaderError) -> (r: Self) {
        DecodeError::CompressedHeader(e)
    }
}

impl vstd::std_specs::convert::FromSpecImpl<CompressedHeaderError> for DecodeError {
    open spec fn obeys_from_spec() -> bool {
        true
    }

    open spec fn from_spec(e: CompressedHeaderError) -> DecodeError {
        DecodeError::CompressedHeader(e)
    }
}

impl From<TileError> for DecodeError {
    fn from(e: TileError) -> (r: Self) {
        DecodeError::Tile(e)
    }
}

impl vstd::std_specs::convert::FromSpecImpl<TileError> for DecodeError {
    open spec fn obeys_from_spec() -> bool {
        true
    }

    open spec fn from_spec(e: TileError) -> DecodeError {
        DecodeError::Tile(e)
    }
}

/// The samples of one plane of a picture: bytes for 8-bit streams, 16-bit values
/// otherwise.
#[derive(Debug, Clone, PartialEq, Eq)]
pub enum PlaneData {
    U8(Vec<u8>),
    U16(Vec<u16>),
}

impl PlaneData {
    /// The number of samples.
    pub open spec fn count(&self) -> nat {
        match self {
            PlaneData::U8(v) => v@.len(),
            PlaneData::U16(v) => v@.len(),
        }
    }

    /// The number of samples.
    pub fn len(&self) -> (n: usize)
        ensures
            n == self.count(),
    {
        match self {
            PlaneData::U8(v) => v.len(),
            PlaneData::U16(v) => v.len(),
        }
    }

    /// Whether there are no samples.
    pub fn is_empty(&self) -> (b: bool)
        ensures
            b == (self.count() == 0),
    {
        self.len() == 0
    }

    /// The samples of an 8-bit plane.
    pub fn as_u8(&self) -> (s: &[u8])
        requires
            self is U8,
        ensures
            s@ == self->U8_0@,
    {
        match self {
            PlaneData::U8(v) => v.as_slice(),
            PlaneData::U16(_) => {
                assert(false);
                &[]
            },
        }
    }
}

/// A decoded picture, cropped to its display size.
#[derive(Debug, Clone, PartialEq, Eq)]
pub struct Frame {
    pub width: u32,
    pub height: u32,
    pub bit_depth: u8,
    pub subsampling_x: u32,
    pub subsampling_y: u32,
    pub y: PlaneData,
    pub u: PlaneData,
    pub v: PlaneData,
}

/// Facts about a decoded frame, for observation only.
#[derive(Debug, Clone, Copy, PartialEq, Eq)]
pub struct FrameDecodeInfo {
    pub intra_only: bool,
    /// A key frame or an intra-only frame.
    pub frame_is_intra: bool,
    pub reset_frame_context: u8,
    pub segmentation_enabled: bool,
    /// For each segment feature, whether a segment of the frame has it.
    pub seg_features_active: [bool; 4],
}

/// The outcome of decoding one frame: `info` for a frame that was decoded,
/// `frame` for one that is shown.
#[derive(Debug, Clone, PartialEq, Eq)]
pub struct DecodedFrame {
    pub info: Option<FrameDecodeInfo>,
    pub frame: Option<Frame>,
}

/// Which saved contexts go back to their initial values.
#[derive(Debug, Clone, Copy, PartialEq, Eq, Structural)]
pub enum FrameContextReset {
    /// No context.
    Nothing,
    /// One context.
    Slot(u8),
    /// All four contexts.
    All,
}

/// The decoder of a stream, with all that carries over from frame to frame.
pub struct Decoder {
    /// What headers need to know of earlier frames.
    pub persist: PersistentState,
    pub frame_contexts: FrameContextStore,
    /// Size of the last decoded frame.
    pub prev_frame_dims: Option<(u32, u32)>,
    /// Whether the last decoded frame was shown.
    pub prev_show_frame: Option<bool>,
    /// Mode info of the last decoded frame.
    pub prev_mi_grid: Option<Arc<MiGrid>>,
    /// Sample format of the last intra frame.
    pub last_color_config: Option<ColorConfig>,
    /// The reference frames.
    pub dpb: Dpb,
    /// Segment ids that later frames predict from, row by row.
    pub prev_segment_ids: Arc<Vec<u8>>,
    /// Type of the last decoded frame.
    pub last_frame_type: Option<FrameType>,
}

// ---------------------------------------------------------------------------
// Pictures.
// ---------------------------------------------------------------------------

/// Length of a chroma row or column for `n` luma samples.
pub open spec fn chroma_len(n: int, sub: int) -> int {
    (n + sub) / (sub + 1)
}

/// The plane data holds the samples in the form of the bit depth.
pub open spec fn holds_samples(d: PlaneData, samples: Seq<u16>, bit_depth: u8) -> bool {
    match d {
        PlaneData::U8(v) => bit_depth == 8 && v@ == samples.map_values(|s: u16| (s % 256) as u8),
        PlaneData::U16(v) => bit_depth != 8 && v@ == samples,
    }
}

/// The top left part of a plane.
pub open spec fn top_left(p: Plane, w: int, h: int) -> Seq<u16> {
    cropped(p.samples(), p.width as int, w, h)
}

/// A picture of `width` by `height` luma samples, cut out of planes.
pub open spec fn frame_of(
    f: Frame,
    planes: Seq<Plane>,
    width: u32,
    height: u32,
    c: ColorConfig,
) -> bool {
    let ssx = c.subsampling_x as int;
    let ssy = c.subsampling_y as int;
    let uw = chroma_len(width as int, ssx);
    let uh = chroma_len(height as int, ssy);
    &&& f.width == width
    &&& f.height == height
    &&& f.bit_depth == c.bit_depth
    &&& f.subsampling_x == c.subsampling_x
    &&& f.subsampling_y == c.subsampling_y
    &&& holds_samples(f.y, top_left(planes[0], width as int, height as int), c.bit_depth)
    &&& holds_samples(f.u, top_left(planes[1], uw, uh), c.bit_depth)
    &&& holds_samples(f.v, top_left(planes[2], uw, uh), c.bit_depth)
}

/// The same, as a reference frame.
pub open spec fn reference_of(
    d: RefFrameData,
    planes: Seq<Plane>,
    width: u32,
    height: u32,
    c: ColorConfig,
) -> bool {
    let ssx = c.subsampling_x as int;
    let ssy = c.subsampling_y as int;
    let uw = chroma_len(width as int, ssx);
    let uh = chroma_len(height as int, ssy);
    &&& d.width == width
    &&& d.height == height
    &&& d.bit_depth == c.bit_depth
    &&& d.subsampling_x == c.subsampling_x
    &&& d.subsampling_y == c.subsampling_y
    &&& d.y.width == width
    &&& d.y.height == height
    &&& d.u.width == uw
    &&& d.u.height == uh
    &&& d.v.width == uw
    &&& d.v.height == uh
    &&& d.y.samples() == top_left(planes[0], width as int, height as int)
    &&& d.u.samples() == top_left(planes[1], uw, uh)
    &&& d.v.samples() == top_left(planes[2], uw, uh)
    &&& reference_ok(d)
}

/// The planes of a reference frame are whole.
pub open spec fn reference_ok(d: RefFrameData) -> bool {
    &&& d.y.wf()
    &&& d.u.wf()
    &&& d.v.wf()
    &&& d.y.x0 == 0
    &&& d.u.x0 == 0
    &&& d.v.x0 == 0
}

/// The picture of a reference frame.
pub open spec fn frame_shows(f: Frame, d: RefFrameData) -> bool {
    &&& f.width == d.width
    &&& f.height == d.height
    &&& f.bit_depth == d.bit_depth
    &&& f.subsampling_x == d.subsampling_x
    &&& f.subsampling_y == d.subsampling_y
    &&& holds_samples(f.y, d.y.samples(), d.bit_depth)
    &&& holds_samples(f.u, d.u.samples(), d.bit_depth)
    &&& holds_samples(f.v, d.v.samples(), d.bit_depth)
}

/// A plane holds at least `w` by `h` samples.
pub open spec fn covers(p: Plane, w: int, h: int) -> bool {
    p.wf() && p.x0 == 0 && w <= p.width && h <= p.height
}

proof fn lemma_crop_fits(p: Plane, w: int, h: int)
    requires
        covers(p, w, h),
        0 <= w,
        0 <= h,
    ensures
        0 <= w * h <= usize::MAX,
        h > 0 ==> (h - 1) * p.width + w <= p.samples().len(),
{
    let pw = p.width as int;
    let ph = p.height as int;
    assert(0 <= w * h <= pw * ph) by (nonlinear_arith)
        requires
            0 <= w <= pw,
            0 <= h <= ph,
    ;
    assert(p.data.len() == pw * ph);
    if h > 0 {
        assert((h - 1) * pw + w <= ph * pw) by (nonlinear_arith)
            requires
                0 <= w <= pw,
                1 <= h <= ph,
        ;
        assert(ph * pw == pw * ph) by (nonlinear_arith);
    }
}

/// A plane cropped to its own size is the plane.
proof fn lemma_crop_whole(p: Plane)
    requires
        p.wf(),
    ensures
        top_left(p, p.width as int, p.height as int) == p.samples(),
{
    let w = p.width as int;
    let h = p.height as int;
    let c = top_left(p, w, h);
    assert(c.len() == p.samples().len());
    assert forall|i: int| 0 <= i < c.len() implies c[i] == p.samples()[i] by {
        if w > 0 {
            lemma_row_major_inverse(w, h, i);
        } else {
            assert(w * h == 0) by (nonlinear_arith)
                requires
                    w == 0,
            ;
        }
    }
    assert(c =~= p.samples());
}

/// Cuts a plane down to `(w, h)`.
fn plane_to_plane_data(plane: &Plane, w: usize, h: usize, bit_depth: u8) -> (d: PlaneData)
    requires
        covers(*plane, w as int, h as int),
    ensures
        holds_samples(d, top_left(*plane, w as int, h as int), bit_depth),
{
    proof {
        lemma_crop_fits(*plane, w as int, h as int);
    }
    if bit_depth == 8 {
        PlaneData::U8(plane.crop_u8(w, h))
    } else {
        PlaneData::U16(plane.crop(w, h))
    }
}

/// The planes hold a picture of the given size.
pub open spec fn planes_cover(planes: Seq<Plane>, width: u32, height: u32, c: ColorConfig) -> bool {
    let uw = chroma_len(width as int, c.subsampling_x as int);
    let uh = chroma_len(height as int, c.subsampling_y as int);
    &&& c.subsampling_x <= 1
    &&& c.subsampling_y <= 1
    &&& width < u32::MAX
    &&& height < u32::MAX
    &&& covers(planes[0], width as int, height as int)
    &&& covers(planes[1], uw, uh)
    &&& covers(planes[2], uw, uh)
}

/// Cuts a picture out of the planes.
pub fn crop_to_frame(
    planes: &[Plane; 3],
    width: u32,
    height: u32,
    color_config: &ColorConfig,
) -> (f: Frame)
    requires
        planes_cover(planes@, width, height, *color_config),
    ensures
        frame_of(f, planes@, width, height, *color_config),
{
    let sub_x: u32 = color_config.subsampling_x as u32;
    let sub_y: u32 = color_config.subsampling_y as u32;
    let uv_width: usize = ((width + sub_x) / (sub_x + 1)) as usize;
    let uv_height: usize = ((height + sub_y) / (sub_y + 1)) as usize;
    let bit_depth: u8 = color_config.bit_depth;
    Frame {
        width,
        height,
        bit_depth,
        subsampling_x: sub_x,
        subsampling_y: sub_y,
        y: plane_to_plane_data(&planes[0], width as usize, height as usize, bit_depth),
        u: plane_to_plane_data(&planes[1], uv_width, uv_height, bit_depth),
        v: plane_to_plane_data(&planes[2], uv_width, uv_height, bit_depth),
    }
}

/// Cuts a reference frame out of the planes.
pub fn build_ref_frame_data(
    planes: &[Plane; 3],
    width: u32,
    height: u32,
    color_config: &ColorConfig,
) -> (d:
    RefFrameData)
    requires
        planes_cover(planes@, width, height, *color_config),
    ensures
        reference_of(d, planes@, width, height, *color_config),
{
    let sub_x: u32 = color_config.subsampling_x as u32;
    let sub_y: u32 = color_config.subsampling_y as u32;
    let uv_width: usize = ((width + sub_x) / (sub_x + 1)) as usize;
    let uv_height: usize = ((height + sub_y) / (sub_y + 1)) as usize;
    proof {
        lemma_crop_fits(planes[0], width as int, height as int);
        lemma_crop_fits(planes[1], uv_width as int, uv_height as int);
        lemma_crop_fits(planes[2], uv_width as int, uv_height as int);
    }
    RefFrameData {
        width,
        height,
        subsampling_x: sub_x,
        subsampling_y: sub_y,
        bit_depth: color_config.bit_depth,
        y: planes[0].crop_to_plane(width as usize, height as usize),
        u: planes[1].crop_to_plane(uv_width, uv_height),
        v: planes[2].crop_to_plane(uv_width, uv_height),
    }
}

/// The picture of a reference frame.
pub fn ref_frame_data_to_frame(data: &RefFrameData) -> (f: Frame)
    requires
        reference_ok(*data),
    ensures
        frame_shows(f, *data),
{
    proof {
        lemma_crop_whole(data.y);
        lemma_crop_whole(data.u);
        lemma_crop_whole(data.v);
    }
    Frame {
        width: data.width,
        height: data.height,
        bit_depth: data.bit_depth,
        subsampling_x: data.subsampling_x,
        subsampling_y: data.subsampling_y,
        y: plane_to_plane_data(&data.y, data.y.width, data.y.height, data.bit_depth),
        u: plane_to_plane_data(&data.u, data.u.width, data.u.height, data.bit_depth),
        v: plane_to_plane_data(&data.v, data.v.width, data.v.height, data.bit_depth),
    }
}

/// The same samples in the same form.
pub open spec fn same_samples(a: PlaneData, b: PlaneData) -> bool {
    match (a, b) {
        (PlaneData::U8(x), PlaneData::U8(y)) => x@ == y@,
        (PlaneData::U16(x), PlaneData::U16(y)) => x@ == y@,
        _ => false,
    }
}

/// The same picture.
pub open spec fn same_picture(f: Frame, g: Frame) -> bool {
    &&& f.width == g.width
    &&& f.height == g.height
    &&& f.bit_depth == g.bit_depth
    &&& f.subsampling_x == g.subsampling_x
    &&& f.subsampling_y == g.subsampling_y
    &&& same_samples(f.y, g.y)
    &&& same_samples(f.u, g.u)
    &&& same_samples(f.v, g.v)
}

/// A frame that is stored as a reference and shown later is the picture that it
/// would have been when it was decoded.
pub proof fn lemma_shown_later_is_the_same(
    f: Frame,
    g: Frame,
    d: RefFrameData,
    planes: Seq<Plane>,
    width: u32,
    height: u32,
    c: ColorConfig,
)
    requires
        frame_of(f, planes, width, height, c),
        reference_of(d, planes, width, height, c),
        frame_shows(g, d),
    ensures
        same_picture(f, g),
{
}

// ---------------------------------------------------------------------------
// Contexts.
// ---------------------------------------------------------------------------

/// Which contexts an intra or error resilient frame sets back.
pub open spec fn spec_context_reset(
    frame_type: FrameType,
    error_resilient_mode: bool,
    reset_frame_context: u8,
    frame_context_idx: u8,
) -> FrameContextReset {
    if frame_type == FrameType::KeyFrame || error_resilient_mode || reset_frame_context == 3 {
        FrameContextReset::All
    } else if reset_frame_context == 2 {
        FrameContextReset::Slot(frame_context_idx)
    } else {
        FrameContextReset::Nothing
    }
}

/// Decides which contexts an intra or error resilient frame sets back.
/// `frame_context_idx` is the coded index.
pub fn frame_context_reset(
    frame_type: FrameType,
    error_resilient_mode: bool,
    reset_frame_context: u8,
    frame_context_idx: u8,
) -> (r: FrameContextReset)
    ensures
        r == spec_context_reset(
            frame_type,
            error_resilient_mode,
            reset_frame_context,
            frame_context_idx,
        ),
{
    if frame_type == FrameType::KeyFrame || error_resilient_mode || reset_frame_context == 3 {
        FrameContextReset::All
    } else if reset_frame_context == 2 {
        FrameContextReset::Slot(frame_context_idx)
    } else {
        FrameContextReset::Nothing
    }
}

/// The full rate at which a frame's coefficient probabilities adapt: higher
/// right after a key frame.
pub open spec fn coef_update_factor(frame_is_intra: bool, last: Option<FrameType>) -> int {
    if !frame_is_intra && last == Some(FrameType::KeyFrame) {
        128
    } else {
        112
    }
}

/// The tables to save after a frame. With adaptation, they are the tables before
/// the frame's header, adapted to the counts; an intra frame adapts the
/// coefficients only and keeps its own transform size and skip probabilities.
/// Without adaptation, they are the tables of the header.
pub open spec fn probs_refreshed(
    header: NewFrameHeader,
    starting: CompressedHeaderProbs,
    compressed: CompressedHeader,
    counts: Counts,
    last: Option<FrameType>,
    out: CompressedHeaderProbs,
) -> bool {
    if header.error_resilient_mode || header.frame_parallel_decoding_mode {
        out == *compressed.probs
    } else {
        &&& coefs_adapted(
            starting.coef_probs,
            counts,
            coef_update_factor(header.frame_is_intra, last),
            out.coef_probs,
        )
        &&& if header.frame_is_intra {
            out == (CompressedHeaderProbs {
                coef_probs: out.coef_probs,
                tx_probs: compressed.probs.tx_probs,
                skip_prob: compressed.probs.skip_prob,
                ..starting
            })
        } else {
            noncoefs_adapted(
                (CompressedHeaderProbs { coef_probs: out.coef_probs, ..starting }),
                counts,
                header.interpolation_filter,
                compressed.tx_mode,
                header.allow_high_precision_mv,
                out,
            )
        }
    }
}

/// Computes the tables to save after a frame.
pub fn refresh_probs(
    header: &NewFrameHeader,
    starting_probs: FrameContext,
    compressed: &CompressedHeader,
    counts: &Counts,
    last_frame_type: Option<FrameType>,
) -> (out: FrameContext)
    requires
        probs_valid(starting_probs),
        probs_valid(*compressed.probs),
    ensures
        probs_refreshed(
            *header,
            starting_probs,
            *compressed,
            *counts,
            last_frame_type,
            out,
        ),
        probs_valid(out),
{
    if header.error_resilient_mode || header.frame_parallel_decoding_mode {
        return (*compressed.probs).clone();
    }
    let mut working: FrameContext = starting_probs;
    let after_key: bool = match last_frame_type {
        Some(FrameType::KeyFrame) => true,
        _ => false,
    };
    let update_factor: u32 = if !header.frame_is_intra && after_key { 128 } else { 112 };
    adapt_coef_probs(&mut working.coef_probs, counts, update_factor);
    if header.frame_is_intra {
        working.tx_probs = compressed.probs.tx_probs;
        working.skip_prob = compressed.probs.skip_prob;
    } else {
        adapt_noncoef_probs(
            &mut working,
            counts,
            header.interpolation_filter,
            compressed.tx_mode,
            header.allow_high_precision_mv,
        );
    }
    working
}

// ---------------------------------------------------------------------------
// The state between frames.
// ---------------------------------------------------------------------------

impl Decoder {
    /// What every frame leaves behind: header state within bounds, usable
    /// probabilities, whole reference frames and a format that planes can hold.
    pub open spec fn wf(&self) -> bool {
        &&& self.persist.bounded()
        &&& forall|i: int| 0 <= i < 4 ==> probs_valid(#[trigger] self.frame_contexts.contexts[i])
        &&& forall|i: int|
            0 <= i < NUM_REF_FRAMES ==> ((#[trigger] self.dpb.slots[i]) matches Some(d)
                ==> reference_ok(*d))
        &&& self.last_color_config matches Some(c) ==> format_ok(c)
    }

    /// The state before the first frame.
    pub open spec fn is_initial(&self) -> bool {
        &&& self.persist.is_initial()
        &&& forall|i: int| 0 <= i < 4 ==> #[trigger] self.frame_contexts.contexts[i]
            == default_probs()
        &&& self.prev_frame_dims is None
        &&& self.prev_show_frame is None
        &&& self.prev_mi_grid is None
        &&& self.last_color_config is None
        &&& forall|i: int| 0 <= i < NUM_REF_FRAMES ==> (#[trigger] self.dpb.slots[i]) is None
        &&& self.prev_segment_ids@.len() == 0
        &&& self.last_frame_type is None
    }

    /// A decoder before the first frame.
    pub fn new() -> (r: Self)
        ensures
            r.is_initial(),
            r.wf(),
    {
        proof {
            lemma_default_probs_valid();
        }
        Decoder {
            persist: PersistentState::default(),
            frame_contexts: FrameContextStore::new(),
            prev_frame_dims: None,
            prev_show_frame: None,
            prev_mi_grid: None,
            last_color_config: None,
            dpb: Dpb::new(),
            prev_segment_ids: Arc::new(Vec::new()),
            last_frame_type: None,
        }
    }
}

impl Default for Decoder {
    fn default() -> (r: Self)
        ensures
            r.is_initial(),
            r.wf(),
    {
        Self::new()
    }
}

/// The format that an inter frame has where no intra frame came before it.
pub open spec fn fallback_config() -> ColorConfig {
    ColorConfig {
        bit_depth: 8,
        color_space: CS_UNKNOWN,
        color_range: false,
        subsampling_x: 1,
        subsampling_y: 1,
    }
}

/// The sample format of a frame: its own, or that of the last intra frame.
pub open spec fn frame_config(d: Decoder, header: NewFrameHeader) -> ColorConfig {
    match header.color_config {
        Some(c) => c,
        None => match d.last_color_config {
            Some(c) => c,
            None => fallback_config(),
        },
    }
}

/// An intra frame leaves its format behind.
pub open spec fn noted_config(d: Decoder, header: NewFrameHeader) -> Option<ColorConfig> {
    if header.frame_is_intra {
        Some(frame_config(d, header))
    } else {
        d.last_color_config
    }
}

/// The segment ids are forgotten by a frame that starts without the past and by
/// one of a new size.
pub open spec fn ids_cleared(
    before: Decoder,
    dims: (u32, u32),
    units: int,
    resets_past: bool,
    after: Arc<Vec<u8>>,
) -> bool {
    if resets_past || before.prev_frame_dims != Some(dims) {
        &&& after@.len() == units
        &&& forall|i: int| 0 <= i < after@.len() ==> #[trigger] after@[i] == 0
    } else {
        after == before.prev_segment_ids
    }
}

/// The contexts after a reset.
pub open spec fn contexts_reset(
    before: FrameContextStore,
    reset: FrameContextReset,
    after: FrameContextStore,
) -> bool {
    match reset {
        FrameContextReset::All => forall|i: int|
            0 <= i < 4 ==> #[trigger] after.contexts[i] == default_probs(),
        FrameContextReset::Slot(k) => after.contexts@ == before.contexts@.update(
            k as int,
            default_probs(),
        ),
        FrameContextReset::Nothing => after == before,
    }
}

/// The contexts that a frame starts from.
pub open spec fn contexts_begun(
    before: FrameContextStore,
    h: NewFrameHeader,
    after: FrameContextStore,
) -> bool {
    contexts_reset(
        before,
        if h.spec_resets_past() {
            spec_context_reset(
                h.frame_type,
                h.error_resilient_mode,
                h.reset_frame_context,
                h.frame_context_idx,
            )
        } else {
            FrameContextReset::Nothing
        },
        after,
    )
}

/// The index of the context that a frame loads and saves.
pub open spec fn context_index(h: NewFrameHeader) -> int {
    if h.spec_resets_past() {
        0
    } else {
        h.frame_context_idx as int
    }
}

/// The decoder once the header of a frame has been taken in.
pub open spec fn frame_begun(before: Decoder, h: NewFrameHeader, after: Decoder) -> bool {
    &&& after.persist == before.persist
    &&& contexts_begun(before.frame_contexts, h, after.frame_contexts)
    &&& after.prev_frame_dims == before.prev_frame_dims
    &&& after.prev_show_frame == before.prev_show_frame
    &&& after.prev_mi_grid == before.prev_mi_grid
    &&& after.last_color_config == noted_config(before, h)
    &&& after.dpb == before.dpb
    &&& ids_cleared(
        before,
        (h.width, h.height),
        units8(h.width as int) * units8(h.height as int),
        h.spec_resets_past(),
        after.prev_segment_ids,
    )
    &&& after.last_frame_type == before.last_frame_type
}

/// Motion vectors of the frame before may be used: it had the same size and was
/// shown, and this one depends on earlier frames.
pub open spec fn prev_mvs_usable(d: Decoder, h: NewFrameHeader) -> bool {
    &&& !h.spec_resets_past()
    &&& d.prev_frame_dims == Some((h.width, h.height))
    &&& d.prev_show_frame == Some(true)
}

/// The reference frames of a frame: none for an intra frame.
pub open spec fn refs_of(
    d: Decoder,
    h: NewFrameHeader,
    refs: Seq<Option<Arc<RefFrameData>>>,
) -> bool {
    &&& refs.len() == 3
    &&& forall|i: int|
        0 <= i < 3 ==> #[trigger] refs[i] == if h.frame_is_intra {
            None
        } else {
            d.dpb.slots[h.ref_frame_idx[i] as int]
        }
}

/// A reference frame has the given format.
pub open spec fn same_format(r: RefFrameData, c: ColorConfig) -> bool {
    &&& r.bit_depth == c.bit_depth
    &&& r.subsampling_x == c.subsampling_x
    &&& r.subsampling_y == c.subsampling_y
}

/// Every reference frame that there is has the given format.
pub open spec fn refs_match(refs: Seq<Option<Arc<RefFrameData>>>, c: ColorConfig) -> bool {
    forall|i: int| 0 <= i < refs.len() ==> ((#[trigger] refs[i]) matches Some(r) ==> same_format(*r, c))
}

/// The reference slots of an inter frame hold the given format, where they hold
/// a frame.
pub open spec fn formats_match(d: Decoder, h: NewFrameHeader) -> bool {
    h.frame_is_intra || forall|i: int|
        0 <= i < 3 ==> (d.dpb.slots[(#[trigger] h.ref_frame_idx[i]) as int] matches Some(r)
            ==> same_format(*r, frame_config(d, h)))
}

/// A frame that may be allocated.
pub open spec fn size_ok(h: NewFrameHeader) -> bool {
    h.width * h.height <= MAX_FRAME_LUMA_SAMPLES
}

/// The buffers of an allowed frame can be counted.
proof fn lemma_size_fits(h: NewFrameHeader)
    requires
        header_bounded(h),
        size_ok(h),
    ensures
        frame_fits(h.width, h.height),
        units8(h.width as int) * units8(h.height as int) <= 0x2000 * 0x2000,
{
    let w = h.width as int;
    let k = h.height as int;
    let a = 64 * units8(units8(w));
    let b = 64 * units8(units8(k));
    assert(a <= w + 63 && b <= k + 63);
    assert(a * b <= (w + 63) * (k + 63)) by (nonlinear_arith)
        requires
            0 <= a <= w + 63,
            0 <= b <= k + 63,
    ;
    assert((w + 63) * (k + 63) == w * k + 63 * w + 63 * k + 63 * 63) by (nonlinear_arith);
    let x = units8(w);
    let y = units8(k);
    assert(x * y <= 0x2000 * 0x2000) by (nonlinear_arith)
        requires
            0 <= x <= 0x2000,
            0 <= y <= 0x2000,
    ;
}

/// Whether the size is that of the last frame.
fn same_dims(prev: Option<(u32, u32)>, dims: (u32, u32)) -> (b: bool)
    ensures
        b == (prev == Some(dims)),
{
    match prev {
        Some(p) => p.0 == dims.0 && p.1 == dims.1,
        None => false,
    }
}

/// Whether a segment of the frame has the feature.
pub open spec fn feature_active(h: NewFrameHeader, level: int) -> bool {
    h.segmentation.enabled && exists|s: int|
        0 <= s < 8 && #[trigger] h.segmentation.feature_enabled[s][level]
}

/// What is told about a decoded frame.
pub open spec fn info_of(h: NewFrameHeader, info: FrameDecodeInfo) -> bool {
    &&& info.intra_only == h.intra_only
    &&& info.frame_is_intra == h.frame_is_intra
    &&& info.reset_frame_context == h.reset_frame_context
    &&& info.segmentation_enabled == h.segmentation.enabled
    &&& forall|level: int|
        0 <= level < 4 ==> #[trigger] info.seg_features_active[level] == feature_active(h, level)
}

/// Collects what is told about a decoded frame.
fn frame_info(header: &NewFrameHeader) -> (info: FrameDecodeInfo)
    ensures
        info_of(*header, info),
{
    let mut active: [bool; 4] = [false; 4];
    for level in 0..4usize
        invariant
            forall|l: int| 0 <= l < level ==> #[trigger] active[l] == feature_active(*header, l),
            forall|l: int| level <= l < 4 ==> !#[trigger] active[l],
    {
        let mut any: bool = false;
        for s in 0..8usize
            invariant
                level < 4,
                any == exists|t: int|
                    0 <= t < s && #[trigger] header.segmentation.feature_enabled[t][level as int],
        {
            if header.segmentation.feature_enabled[s][level] {
                any = true;
            }
        }
        active[level] = header.segmentation.enabled && any;
    }
    FrameDecodeInfo {
        intra_only: header.intra_only,
        frame_is_intra: header.frame_is_intra,
        reset_frame_context: header.reset_frame_context,
        segmentation_enabled: header.segmentation.enabled,
        seg_features_active: active,
    }
}

impl Decoder {
    /// Sets all segment ids to 0 where the frame starts without the past or its
    /// size is not that of the last frame. Changes nothing else.
    pub fn clear_prev_segment_ids_if_needed(
        &mut self,
        dims: (u32, u32),
        image_size: &ImageSize,
        setup_past_independence: bool,
    )
        requires
            image_size.mi_cols * image_size.mi_rows <= u32::MAX,
        ensures
            ids_cleared(
                *old(self),
                dims,
                image_size.mi_cols * image_size.mi_rows,
                setup_past_independence,
                final(self).prev_segment_ids,
            ),
            *final(self) == (Decoder {
                prev_segment_ids: final(self).prev_segment_ids,
                ..*old(self)
            }),
    {
        if setup_past_independence || !same_dims(self.prev_frame_dims, dims) {
            let ids: Vec<u8> = vec![0u8; (image_size.mi_cols * image_size.mi_rows) as usize];
            self.prev_segment_ids = Arc::new(ids);
        }
    }
}

/// The segment ids of a grid, row by row.
pub open spec fn segment_map(ids: Seq<u8>, cols: int, rows: int, grid: MiGrid) -> bool {
    &&& ids.len() == cols * rows
    &&& forall|r: int, c: int|
        0 <= r < rows && 0 <= c < cols ==> #[trigger] ids[row_major(cols, c, r)] == grid.at(
            r,
            c,
        ).segment_id
}

impl Decoder {
    /// Takes the segment ids over from the frame where it updates them. Changes
    /// nothing else.
    pub fn refresh_prev_segment_ids(
        &mut self,
        header: &NewFrameHeader,
        image_size: &ImageSize,
        grid: &MiGrid,
    )
        requires
            image_size.mi_cols * image_size.mi_rows <= u32::MAX,
            grid.wf(),
            grid.col0 == 0,
            image_size.mi_cols <= grid.cols,
            image_size.mi_rows <= grid.rows,
        ensures
            if header.segmentation.enabled && header.segmentation.update_map {
                segment_map(
                    final(self).prev_segment_ids@,
                    image_size.mi_cols as int,
                    image_size.mi_rows as int,
                    *grid,
                )
            } else {
                final(self).prev_segment_ids == old(self).prev_segment_ids
            },
            *final(self) == (Decoder {
                prev_segment_ids: final(self).prev_segment_ids,
                ..*old(self)
            }),
    {
        if header.segmentation.enabled && header.segmentation.update_map {
            let cols: u32 = image_size.mi_cols;
            let rows: u32 = image_size.mi_rows;
            let mut new_map: Vec<u8> = Vec::with_capacity((cols * rows) as usize);
            let ghost w = cols as int;
            for row in 0..rows
                invariant
                    w == cols,
                    cols * rows <= u32::MAX,
                    grid.wf(),
                    grid.col0 == 0,
                    cols <= grid.cols,
                    rows <= grid.rows,
                    segment_map(new_map@, w, row as int, *grid),
            {
                let ghost start = new_map@;
                for col in 0..cols
                    invariant
                        w == cols,
                        row < rows,
                        grid.wf(),
                        grid.col0 == 0,
                        cols <= grid.cols,
                        rows <= grid.rows,
                        segment_map(start, w, row as int, *grid),
                        new_map@.len() == start.len() + col,
                        forall|i: int| 0 <= i < start.len() ==> #[trigger] new_map@[i] == start[i],
                        forall|c: int|
                            0 <= c < col ==> #[trigger] new_map@[start.len() + c] == grid.at(
                                row as int,
                                c,
                            ).segment_id,
                {
                    new_map.push(grid.get(row, col).segment_id);
                }
                proof {
                    assert(start.len() == w * row);
                    assert(w * (row + 1) == w * row + w) by (nonlinear_arith);
                    assert forall|r: int, c: int|
                        0 <= r < row + 1 && 0 <= c < w implies #[trigger] new_map@[row_major(w, c, r)]
                        == grid.at(r, c).segment_id by {
                        assert(row_major(w, c, r) == r * w + c);
                        assert(w * row == row * w) by (nonlinear_arith);
                        if r < row {
                            lemma_row_major(w, row as int, c, r);
                            assert(start[row_major(w, c, r)] == grid.at(r, c).segment_id);
                        } else {
                            assert(r == row);
                            assert(new_map@[start.len() + c] == grid.at(row as int, c).segment_id);
                        }
                    }
                }
            }
            self.prev_segment_ids = Arc::new(new_map);
        }
    }
}

// ---------------------------------------------------------------------------
// One frame.
// ---------------------------------------------------------------------------

/// A frame whose headers have been read.
struct StartedFrame {
    color_config: ColorConfig,
    starting_probs: FrameContext,
    compressed: CompressedHeader,
    tiles: TileDecoder,
    /// Where the tiles start in the frame's data.
    tile_start: usize,
}

/// The tile decoder at the start of a frame.
pub open spec fn tiles_begun(
    d: Decoder,
    h: NewFrameHeader,
    cc: ColorConfig,
    c: CompressedHeader,
    t: TileDecoder,
) -> bool {
    &&& refs_of(d, h, t.frame.resolved_refs@)
    &&& frame_started(
        t.frame,
        h,
        cc,
        c,
        prev_mvs_usable(d, h),
        if prev_mvs_usable(d, h) {
            d.prev_mi_grid
        } else {
            None
        },
        t.frame.resolved_refs,
        d.prev_segment_ids,
    )
    &&& contexts_started(t.contexts, 8 * t.frame.sb_cols())
    &&& t.visited@ == Set::<(int, int)>::empty()
}

/// The compressed header of a frame whose first header takes `consumed` bytes.
pub open spec fn compressed_of(d: Seq<u8>, consumed: int, h: NewFrameHeader) -> Seq<u8> {
    d.subrange(consumed, consumed + h.header_size_in_bytes)
}

/// What is refused before any tile is decoded.
pub open spec fn start_refusal(
    before: Decoder,
    d: Seq<u8>,
    consumed: int,
    h: NewFrameHeader,
) -> Option<
    DecodeError,
> {
    let comp = compressed_of(d, consumed, h);
    if consumed + h.header_size_in_bytes > d.len() {
        Some(DecodeError::TruncatedFrame)
    } else if !size_ok(h) {
        Some(DecodeError::Header(HeaderError::FrameSizeTooLarge))
    } else if comp.len() == 0 {
        Some(
            DecodeError::CompressedHeader(
                CompressedHeaderError::BoolCoder(BoolCoderError::EmptyBuffer),
            ),
        )
    } else if decoded_bool(loaded_state(comp), 128) {
        Some(
            DecodeError::CompressedHeader(
                CompressedHeaderError::BoolCoder(BoolCoderError::InvalidMarker),
            ),
        )
    } else if !formats_match(before, h) {
        Some(DecodeError::Header(HeaderError::RefFrameFormatMismatch))
    } else {
        None
    }
}

/// What a frame that is refused before its tiles leaves behind.
pub open spec fn refused_start(
    before: Decoder,
    h: NewFrameHeader,
    e: DecodeError,
    after: Decoder,
) -> bool {
    if e == DecodeError::TruncatedFrame || e == DecodeError::Header(HeaderError::FrameSizeTooLarge) {
        after == (Decoder { last_color_config: noted_config(before, h), ..before })
    } else {
        frame_begun(before, h, after)
    }
}

impl Decoder {
    /// Takes in the header of a frame: notes the format, forgets segment ids and
    /// resets contexts.
    #[verifier::spinoff_prover]
    fn begin_frame(&mut self, header: &NewFrameHeader)
        requires
            old(self).wf(),
            header_bounded(*header),
            size_ok(*header),
            old(self).last_color_config == noted_config(*old(self), *header),
        ensures
            final(self).wf(),
            frame_begun(*old(self), *header, *final(self)),
    {
        proof {
            lemma_size_fits(*header);
            lemma_default_probs_valid();
        }
        let image_size: ImageSize = compute_image_size(header.width, header.height);
        let resets_past: bool = header.frame_is_intra || header.error_resilient_mode;
        self.clear_prev_segment_ids_if_needed(
            (header.width, header.height),
            &image_size,
            resets_past,
        );
        if resets_past {
            match frame_context_reset(
                header.frame_type,
                header.error_resilient_mode,
                header.reset_frame_context,
                header.frame_context_idx,
            ) {
                FrameContextReset::All => {
                    self.frame_contexts.reset_all();
                },
                FrameContextReset::Slot(idx) => {
                    self.frame_contexts.save(idx, FrameContext::default());
                    assert forall|i: int| 0 <= i < 4 implies probs_valid(
                        #[trigger] self.frame_contexts.contexts[i],
                    ) by {
                        assert(self.frame_contexts.contexts@[i] == if i == idx {
                            default_probs()
                        } else {
                            old(self).frame_contexts.contexts@[i]
                        });
                    }
                },
                FrameContextReset::Nothing => {},
            }
        }
    }

    /// The frames that a frame refers to.
    #[verifier::spinoff_prover]
    fn resolve_refs(&self, header: &NewFrameHeader) -> (refs: [Option<Arc<RefFrameData>>; 3])
        requires
            header_bounded(*header),
        ensures
            refs_of(*self, *header, refs@),
    {
        if header.frame_is_intra {
            [None, None, None]
        } else {
            [
                self.dpb.get_arc(header.ref_frame_idx[0]),
                self.dpb.get_arc(header.ref_frame_idx[1]),
                self.dpb.get_arc(header.ref_frame_idx[2]),
            ]
        }
    }
}

/// Whether every reference frame has the format of the frame.
#[verifier::spinoff_prover]
fn formats_agree(refs: &[Option<Arc<RefFrameData>>; 3], color_config: &ColorConfig) -> (b: bool)
    ensures
        b == refs_match(refs@, *color_config),
{
    for i in 0..3usize
        invariant
            forall|k: int|
                0 <= k < i ==> ((#[trigger] refs@[k]) matches Some(r) ==> same_format(
                    *r,
                    *color_config,
                )),
    {
        match &refs[i] {
            Some(r) => {
                if r.bit_depth != color_config.bit_depth || r.subsampling_x
                    != color_config.subsampling_x as u32 || r.subsampling_y
                    != color_config.subsampling_y as u32 {
                    assert(refs@[i as int] is Some);
                    return false;
                }
            },
            None => {},
        }
    }
    true
}

impl Decoder {
    /// Reads the second header of a frame and sets up its tile decoder.
    #[verifier::spinoff_prover]
    #[verifier::rlimit(40)]
    fn start_frame(
        &mut self,
        data: &[u8],
        header: &NewFrameHeader,
        consumed: usize,
    ) -> (res: Result<
        StartedFrame,
        DecodeError,
    >)
        requires
            old(self).wf(),
            header_bounded(*header),
            8 * data.len() <= usize::MAX,
        ensures
            final(self).wf(),
            match start_refusal(*old(self), data@, consumed as int, *header) {
                Some(e) => res is Err && res->Err_0 == e && refused_start(
                    *old(self),
                    *header,
                    e,
                    *final(self),
                ),
                None => {
                    &&& res is Ok
                    &&& frame_begun(*old(self), *header, *final(self))
                    &&& res->Ok_0.color_config == frame_config(*old(self), *header)
                    &&& res->Ok_0.starting_probs == final(self).frame_contexts.contexts[context_index(
                        *header,
                    )]
                    &&& compressed_header_at(
                        compressed_of(data@, consumed as int, *header),
                        *header,
                        res->Ok_0.starting_probs,
                        res->Ok_0.compressed,
                    )
                    &&& probs_valid(*res->Ok_0.compressed.probs)
                    &&& tiles_begun(
                        *final(self),
                        *header,
                        res->Ok_0.color_config,
                        res->Ok_0.compressed,
                        res->Ok_0.tiles,
                    )
                    &&& res->Ok_0.tile_start == consumed + header.header_size_in_bytes
                },
            },
    {
        let color_config: ColorConfig = match header.color_config {
            Some(c) => c,
            None => match self.last_color_config {
                Some(c) => c,
                None => ColorConfig {
                    bit_depth: 8,
                    color_space: CS_UNKNOWN,
                    color_range: false,
                    subsampling_x: 1,
                    subsampling_y: 1,
                },
            },
        };
        assert(color_config == frame_config(*self, *header));
        if header.frame_is_intra {
            self.last_color_config = Some(color_config);
        }
        let header_size: usize = header.header_size_in_bytes as usize;
        if consumed > data.len() || header_size > data.len() - consumed {
            return Err(DecodeError::TruncatedFrame);
        }
        let tile_start: usize = consumed + header_size;
        assert(header.width * header.height <= 0x1_0000 * 0x1_0000) by (nonlinear_arith)
            requires
                header.width <= 0x1_0000,
                header.height <= 0x1_0000,
        ;
        if header.width as u64 * header.height as u64 > MAX_FRAME_LUMA_SAMPLES {
            return Err(DecodeError::Header(HeaderError::FrameSizeTooLarge));
        }
        self.begin_frame(header);
        assert(frame_begun(*old(self), *header, *self));
        let starting_probs: FrameContext = self.frame_contexts.load(
            header.effective_frame_context_idx(),
        );
        let compressed_bytes: &[u8] = vstd::slice::slice_subrange(data, consumed, tile_start);
        assert(compressed_bytes@ == compressed_of(data@, consumed as int, *header));
        let compressed: CompressedHeader = match parse_compressed_header(
            compressed_bytes,
            header,
            starting_probs.clone(),
        ) {
            Ok(c) => c,
            Err(e) => {
                return Err(DecodeError::CompressedHeader(e));
            },
        };
        let resolved_refs: [Option<Arc<RefFrameData>>; 3] = self.resolve_refs(header);
        let agree: bool = formats_agree(&resolved_refs, &color_config);
        proof {
            if header.frame_is_intra {
                assert(refs_match(resolved_refs@, color_config));
            } else if refs_match(resolved_refs@, color_config) {
                assert forall|i: int| 0 <= i < 3 implies (old(self).dpb.slots[(#[trigger] header.ref_frame_idx[i]) as int] matches Some(r)
                ==> same_format(*r, color_config)) by {
                    assert(resolved_refs@[i] == self.dpb.slots[header.ref_frame_idx[i] as int]);
                }
            } else if formats_match(*old(self), *header) {
                assert forall|i: int| 0 <= i < 3 implies ((#[trigger] resolved_refs@[i]) matches Some(r)
                ==> same_format(*r, color_config)) by {
                    assert(resolved_refs@[i] == self.dpb.slots[header.ref_frame_idx[i] as int]);
                }
            }
        }
        if !agree {
            return Err(DecodeError::Header(HeaderError::RefFrameFormatMismatch));
        }
        let use_prev_frame_mvs: bool = !header.frame_is_intra && !header.error_resilient_mode
            && same_dims(self.prev_frame_dims, (header.width, header.height)) && match self.prev_show_frame {
            Some(shown) => shown,
            None => false,
        };
        assert(use_prev_frame_mvs == prev_mvs_usable(*self, *header));
        let prev_grid: Option<Arc<MiGrid>> = if use_prev_frame_mvs {
            share_grid(&self.prev_mi_grid)
        } else {
            None
        };
        let segment_ids: Arc<Vec<u8>> = self.prev_segment_ids.clone();
        proof {
            lemma_size_fits(*header);
        }
        let tiles: TileDecoder = TileDecoder::new_with_prev(
            header,
            color_config,
            &compressed,
            use_prev_frame_mvs,
            prev_grid,
            resolved_refs,
            segment_ids,
        );
        Ok(StartedFrame { color_config, starting_probs, compressed, tiles, tile_start })
    }
}

/// A second handle to a shared grid.
fn share_grid(grid: &Option<Arc<MiGrid>>) -> (r: Option<Arc<MiGrid>>)
    ensures
        r == *grid,
{
    match grid {
        Some(g) => {
            let shared: Arc<MiGrid> = g.clone();
            Some(shared)
        },
        None => None,
    }
}

/// The tile decoder after the loop filter, which only a level other than 0
/// calls for.
pub open spec fn tiles_filtered(
    before: TileDecoder,
    lf: LoopFilterParams,
    after: TileDecoder,
) -> bool {
    if lf.level == 0 {
        after == before
    } else {
        &&& after.frame.wf()
        &&& after.frame.same_setup(&before.frame)
        &&& after.frame.mi_grid == before.frame.mi_grid
        &&& after.contexts == before.contexts
        &&& forall|p: int|
            0 <= p < 3 ==> (#[trigger] after.frame.planes[p]).samples() == plane_filtered(
                filter_frame(&before.frame, &lf),
                p,
                before.frame.planes[p].width as int,
                before.frame.planes[p].samples(),
            )
    }
}

/// What headers need to know after a frame.
pub open spec fn state_updated(
    before: PersistentState,
    h: NewFrameHeader,
    after: PersistentState,
) -> bool {
    &&& forall|i: int|
        0 <= i < NUM_REF_FRAMES ==> #[trigger] after.ref_frame_sizes[i] == if flag_set(
            h.refresh_frame_flags,
            i,
        ) {
            (h.width, h.height)
        } else {
            before.ref_frame_sizes[i]
        }
    &&& after.loop_filter_deltas == (LoopFilterDeltas {
        ref_deltas: h.loop_filter.ref_deltas,
        mode_deltas: h.loop_filter.mode_deltas,
    })
    &&& after.segmentation == (SegFeaturePersist {
        enabled: h.segmentation.feature_enabled,
        data: h.segmentation.feature_data,
        abs_or_delta: h.segmentation.abs_or_delta_update,
    })
}

/// The contexts after a frame: one of them is refreshed where the header says
/// so.
pub open spec fn contexts_updated(
    begun: Decoder,
    h: NewFrameHeader,
    starting: FrameContext,
    c: CompressedHeader,
    counts: Counts,
    after: FrameContextStore,
) -> bool {
    if h.refresh_frame_context {
        &&& probs_refreshed(
            h,
            starting,
            c,
            counts,
            begun.last_frame_type,
            after.contexts[context_index(h)],
        )
        &&& forall|i: int|
            0 <= i < 4 && i != context_index(h) ==> #[trigger] after.contexts[i]
                == begun.frame_contexts.contexts[i]
    } else {
        after == begun.frame_contexts
    }
}

/// The reference slots after a frame.
pub open spec fn slots_updated(
    before: Dpb,
    h: NewFrameHeader,
    cc: ColorConfig,
    planes: Seq<Plane>,
    after: Dpb,
) -> bool {
    forall|i: int|
        #![trigger after.slots[i]]
        0 <= i < NUM_REF_FRAMES ==> if flag_set(h.refresh_frame_flags, i) {
            after.slots[i] matches Some(d) && reference_of(*d, planes, h.width, h.height, cc)
        } else {
            after.slots[i] == before.slots[i]
        }
}

/// A frame that has been decoded: what the decoder keeps of it, and what it
/// gives out. `t` is the tile decoder after the loop filter.
pub open spec fn frame_finished(
    begun: Decoder,
    h: NewFrameHeader,
    cc: ColorConfig,
    starting: FrameContext,
    c: CompressedHeader,
    t: TileDecoder,
    after: Decoder,
    out: DecodedFrame,
) -> bool {
    &&& state_updated(begun.persist, h, after.persist)
    &&& contexts_updated(begun, h, starting, c, t.contexts.counts, after.frame_contexts)
    &&& after.prev_frame_dims == Some((h.width, h.height))
    &&& after.prev_show_frame == Some(h.show_frame)
    &&& after.prev_mi_grid matches Some(g) && *g == t.frame.mi_grid
    &&& after.last_color_config == begun.last_color_config
    &&& slots_updated(begun.dpb, h, cc, t.frame.planes@, after.dpb)
    &&& if h.segmentation.enabled && h.segmentation.update_map {
        segment_map(
            after.prev_segment_ids@,
            units8(h.width as int),
            units8(h.height as int),
            t.frame.mi_grid,
        )
    } else {
        after.prev_segment_ids == begun.prev_segment_ids
    }
    &&& after.last_frame_type == Some(h.frame_type)
    &&& out.info matches Some(info) && info_of(h, info)
    &&& match out.frame {
        Some(f) => h.show_frame && frame_of(f, t.frame.planes@, h.width, h.height, cc),
        None => !h.show_frame,
    }
}

proof fn lemma_chroma_len(n: int, sub: int)
    requires
        0 <= n,
        0 <= sub <= 1,
    ensures
        chroma_len(n, 0) == n,
        chroma_len(n, 1) == (n + 1) / 2,
        0 <= chroma_len(n, sub) <= n,
{
    assert(sub == 0 || sub == 1);
}

/// The planes of a tile decoder hold its frame.
#[verifier::spinoff_prover]
proof fn lemma_planes_cover(t: TileDecoder, h: NewFrameHeader, cc: ColorConfig)
    requires
        t.frame.wf(),
        t.frame.mi_cols == units8(h.width as int),
        t.frame.mi_rows == units8(h.height as int),
        t.frame.subsampling_x == cc.subsampling_x,
        t.frame.subsampling_y == cc.subsampling_y,
        h.width <= 0x1_0000,
        h.height <= 0x1_0000,
    ensures
        planes_cover(t.frame.planes@, h.width, h.height, cc),
{
    assert(t.frame.plane_fits(0, t.frame.planes[0]));
    assert(t.frame.plane_fits(1, t.frame.planes[1]));
    assert(t.frame.plane_fits(2, t.frame.planes[2]));
    assert(64 * t.frame.sb_cols() >= h.width);
    assert(64 * t.frame.sb_rows() >= h.height);
    lemma_chroma_len(h.width as int, cc.subsampling_x as int);
    lemma_chroma_len(h.height as int, cc.subsampling_y as int);
}

impl Decoder {
    /// Stores a decoded frame in its reference slots.
    #[verifier::spinoff_prover]
    fn store_references(
        &mut self,
        header: &NewFrameHeader,
        color_config: &ColorConfig,
        planes: &[Plane; 3],
    )
        requires
            old(self).wf(),
            header_bounded(*header),
            planes_cover(planes@, header.width, header.height, *color_config),
        ensures
            final(self).wf(),
            slots_updated(old(self).dpb, *header, *color_config, planes@, final(self).dpb),
            forall|i: int|
                0 <= i < NUM_REF_FRAMES ==> #[trigger] final(self).persist.ref_frame_sizes[i]
                    == if flag_set(header.refresh_frame_flags, i) {
                    (header.width, header.height)
                } else {
                    old(self).persist.ref_frame_sizes[i]
                },
            *final(self) == (Decoder {
                dpb: final(self).dpb,
                persist: PersistentState {
                    ref_frame_sizes: final(self).persist.ref_frame_sizes,
                    ..old(self).persist
                },
                ..*old(self)
            }),
    {
        let flags: u8 = header.refresh_frame_flags;
        if flags != 0 {
            let ref_data: Arc<RefFrameData> = Arc::new(
                build_ref_frame_data(planes, header.width, header.height, color_config),
            );
            self.dpb.update(flags, &ref_data);
            for slot in 0..8usize
                invariant
                    flags == header.refresh_frame_flags,
                    forall|i: int|
                        0 <= i < NUM_REF_FRAMES ==> #[trigger] self.persist.ref_frame_sizes[i]
                            == if i < slot && flag_set(flags, i) {
                            (header.width, header.height)
                        } else {
                            old(self).persist.ref_frame_sizes[i]
                        },
                    forall|i: int|
                        0 <= i < NUM_REF_FRAMES ==> #[trigger] self.dpb.slots[i] == if flag_set(
                            flags,
                            i,
                        ) {
                            Some(ref_data)
                        } else {
                            old(self).dpb.slots[i]
                        },
                    *self == (Decoder {
                        dpb: self.dpb,
                        persist: PersistentState {
                            ref_frame_sizes: self.persist.ref_frame_sizes,
                            ..old(self).persist
                        },
                        ..*old(self)
                    }),
            {
                if (flags >> (slot as u8)) & 1 == 1 {
                    self.persist.ref_frame_sizes[slot] = (header.width, header.height);
                }
            }
        } else {
            assert forall|i: int| 0 <= i < NUM_REF_FRAMES implies !flag_set(flags, i) by {
                let k = i as u8;
                assert((0u8 >> k) & 1u8 != 1u8) by (bit_vector);
            }
        }
    }

    /// Keeps what later frames need of a decoded frame, and gives it out.
    #[verifier::spinoff_prover]
    #[verifier::rlimit(40)]
    fn finish_frame(
        &mut self,
        header: &NewFrameHeader,
        started: StartedFrame,
    ) -> (out: DecodedFrame)
        requires
            old(self).wf(),
            header_bounded(*header),
            size_ok(*header),
            probs_valid(started.starting_probs),
            probs_valid(*started.compressed.probs),
            started.tiles.frame.wf(),
            started.tiles.frame.mi_cols == units8(header.width as int),
            started.tiles.frame.mi_rows == units8(header.height as int),
            started.tiles.frame.subsampling_x == started.color_config.subsampling_x,
            started.tiles.frame.subsampling_y == started.color_config.subsampling_y,
            started.tiles.frame.segmentation == header.segmentation,
        ensures
            final(self).wf(),
            exists|t: TileDecoder|
                #![trigger tiles_filtered(started.tiles, header.loop_filter, t)]
                tiles_filtered(started.tiles, header.loop_filter, t) && frame_finished(
                    *old(self),
                    *header,
                    started.color_config,
                    started.starting_probs,
                    started.compressed,
                    t,
                    *final(self),
                    out,
                ),
    {
        let StartedFrame { color_config, starting_probs, compressed, tiles, tile_start: _ } = started;
        let mut tiles: TileDecoder = tiles;
        if header.loop_filter.level != 0 {
            tiles.apply_loop_filter(&header.loop_filter);
        }
        assert(tiles_filtered(started.tiles, header.loop_filter, tiles));
        proof {
            lemma_size_fits(*header);
            lemma_planes_cover(tiles, *header, color_config);
        }
        let image_size: ImageSize = compute_image_size(header.width, header.height);
        self.refresh_prev_segment_ids(header, &image_size, tiles.mi_grid());
        if header.refresh_frame_context {
            let final_probs: FrameContext = refresh_probs(
                header,
                starting_probs,
                &compressed,
                tiles.counts(),
                self.last_frame_type,
            );
            self.frame_contexts.save(header.effective_frame_context_idx(), final_probs);
            assert forall|i: int| 0 <= i < 4 implies probs_valid(
                #[trigger] self.frame_contexts.contexts[i],
            ) && (i != context_index(*header) ==> self.frame_contexts.contexts[i] == old(
                self,
            ).frame_contexts.contexts[i]) by {
                assert(self.frame_contexts.contexts@[i] == if i == context_index(*header) {
                    final_probs
                } else {
                    old(self).frame_contexts.contexts@[i]
                });
            }
        }
        self.store_references(header, &color_config, tiles.planes());
        self.prev_frame_dims = Some((header.width, header.height));
        self.prev_show_frame = Some(header.show_frame);
        self.persist.loop_filter_deltas = LoopFilterDeltas {
            ref_deltas: header.loop_filter.ref_deltas,
            mode_deltas: header.loop_filter.mode_deltas,
        };
        self.persist.segmentation = SegFeaturePersist {
            enabled: header.segmentation.feature_enabled,
            data: header.segmentation.feature_data,
            abs_or_delta: header.segmentation.abs_or_delta_update,
        };
        self.last_frame_type = Some(header.frame_type);
        let info: FrameDecodeInfo = frame_info(header);
        let frame: Option<Frame> = if header.show_frame {
            Some(crop_to_frame(tiles.planes(), header.width, header.height, &color_config))
        } else {
            None
        };
        let ghost t = tiles;
        self.prev_mi_grid = Some(Arc::new(tiles.into_mi_grid()));
        assert(tiles_filtered(started.tiles, header.loop_filter, t));
        DecodedFrame { info: Some(info), frame }
    }
}

/// A decoder together with the block layer that it asks.
pub struct Session<L> {
    pub decoder: Decoder,
    pub layer: L,
}

/// The decoder and the layer, as they are.
pub open spec fn session<L: BlockLayer>(decoder: Decoder, layer: L) -> Session<L> {
    Session { decoder, layer }
}

/// The tiles of a frame that starts from `begun`, and what follows from them.
/// The tile data may be impossible to split, or a tile may be refused; then
/// nothing more changes. Otherwise every unit of the frame has been visited.
pub open spec fn tiles_done<L: BlockLayer>(
    begun: Session<L>,
    tile_data: Seq<u8>,
    h: NewFrameHeader,
    cc: ColorConfig,
    c: CompressedHeader,
    t0: TileDecoder,
    t1: TileDecoder,
    after: Session<L>,
    res: Result<DecodedFrame, DecodeError>,
) -> bool {
    &&& tiles_begun(begun.decoder, h, cc, c, t0)
    &&& match tiles_of(tile_data, tile_count(h)) {
        Some(tiles) => match res {
            Ok(out) => {
                &&& tiles_walked(
                    stop_at(t0, begun.layer),
                    tiles,
                    stop_at(t1, after.layer),
                    None,
                )
                &&& frame_visited(t1.visited@, t1.frame)
                &&& exists|t: TileDecoder|
                    #![trigger tiles_filtered(t1, h.loop_filter, t)]
                    tiles_filtered(t1, h.loop_filter, t) && frame_finished(
                        begun.decoder,
                        h,
                        cc,
                        begun.decoder.frame_contexts.contexts[context_index(h)],
                        c,
                        t,
                        after.decoder,
                        out,
                    )
            },
            Err(e) => {
                &&& e matches DecodeError::Tile(t) && tiles_walked(
                    stop_at(t0, begun.layer),
                    tiles,
                    stop_at(t1, after.layer),
                    Some(t),
                )
                &&& after.decoder == begun.decoder
            },
        },
        None => {
            &&& res is Err
            &&& res->Err_0 == DecodeError::Tile(TileError::InvalidTileSize)
            &&& after == begun
        },
    }
}

/// The number of tiles of a frame.
pub open spec fn tile_count(h: NewFrameHeader) -> nat {
    (pow2(h.tile_rows_log2 as nat) * pow2(h.tile_cols_log2 as nat)) as nat
}

/// What becomes of a new frame, given its header and where that ends.
pub open spec fn new_frame<L: BlockLayer>(
    before: Session<L>,
    d: Seq<u8>,
    consumed: int,
    h: NewFrameHeader,
    after: Session<L>,
    res: Result<DecodedFrame, DecodeError>,
) -> bool {
    match start_refusal(before.decoder, d, consumed, h) {
        Some(e) => res is Err && res->Err_0 == e && refused_start(
            before.decoder,
            h,
            e,
            after.decoder,
        ) && after.layer == before.layer,
        None => exists|begun: Decoder, c: CompressedHeader, t0: TileDecoder, t1: TileDecoder|
            {
                &&& frame_begun(before.decoder, h, begun)
                &&& compressed_header_at(
                    compressed_of(d, consumed, h),
                    h,
                    begun.frame_contexts.contexts[context_index(h)],
                    c,
                )
                &&& #[trigger] tiles_done(
                    session(begun, before.layer),
                    d.skip(consumed + h.header_size_in_bytes),
                    h,
                    frame_config(before.decoder, h),
                    c,
                    t0,
                    t1,
                    after,
                    res,
                )
            },
    }
}

/// Why the first header of a frame is refused.
pub open spec fn header_refusal(d: Seq<u8>) -> Option<HeaderError> {
    if !marker_ok(d) {
        Some(HeaderError::InvalidFrameMarker)
    } else if shows_existing(d) || !is_intra(d) {
        None
    } else if !sync_ok(d) {
        Some(HeaderError::InvalidSyncCode)
    } else if has_color_config(d) && !color_config_ok(d, body_pos(d) + 24, profile_of(d)) {
        Some(HeaderError::InvalidColorConfigForProfile)
    } else {
        None
    }
}

/// The slot that a frame shows again.
pub open spec fn shown_slot(d: Seq<u8>) -> int {
    bits_value(d, show_existing_pos(d) + 1, 3)
}

/// What becomes of one frame: it is refused, it shows a reference frame again,
/// or it is decoded.
pub open spec fn one_frame<L: BlockLayer>(
    before: Session<L>,
    d: Seq<u8>,
    after: Session<L>,
    res: Result<DecodedFrame, DecodeError>,
) -> bool {
    if header_refusal(d) is Some {
        &&& res is Err
        &&& res->Err_0 == DecodeError::Header(header_refusal(d)->0)
        &&& after == before
    } else if shows_existing(d) {
        &&& after == before
        &&& match before.decoder.dpb.slots[shown_slot(d)] {
            Some(r) => {
                &&& res is Ok
                &&& res->Ok_0.info is None
                &&& res->Ok_0.frame matches Some(f) && frame_shows(f, *r)
            },
            None => res is Err && res->Err_0 == DecodeError::MissingReferenceFrame,
        }
    } else {
        exists|h: NewFrameHeader|
            #![trigger header_at(d, before.decoder.persist, h)]
            header_at(d, before.decoder.persist, h) && new_frame(
                before,
                d,
                units8(header_size_pos(d, before.decoder.persist) + 16),
                h,
                after,
                res,
            )
    }
}

/// A frame that is decoded into a slot and shown again from there is the picture
/// that it was, or would have been, when it was decoded.
pub proof fn lemma_show_existing_repeats<L: BlockLayer>(
    begun: Decoder,
    h: NewFrameHeader,
    cc: ColorConfig,
    starting: FrameContext,
    c: CompressedHeader,
    t: TileDecoder,
    stored: Session<L>,
    out: DecodedFrame,
    d: Seq<u8>,
    after: Session<L>,
    res: Result<DecodedFrame, DecodeError>,
)
    requires
        frame_finished(begun, h, cc, starting, c, t, stored.decoder, out),
        header_refusal(d) is None,
        shows_existing(d),
        flag_set(h.refresh_frame_flags, shown_slot(d)),
        one_frame(stored, d, after, res),
    ensures
        after == stored,
        res is Ok,
        res->Ok_0.frame matches Some(g) && (out.frame matches Some(f) ==> same_picture(f, g)),
{
    lemma_bits_value_range(d, show_existing_pos(d) + 1, 3);
    vstd::arithmetic::power2::lemma2_to64();
    let slot = stored.decoder.dpb.slots[shown_slot(d)];
    assert(slot matches Some(r) && reference_of(*r, t.frame.planes@, h.width, h.height, cc));
}

/// A key frame starts from contexts and segment ids that do not depend on
/// earlier frames.
pub proof fn lemma_key_frame_starts_afresh(
    before: Decoder,
    other: Decoder,
    h: NewFrameHeader,
    begun: Decoder,
    begun_other: Decoder,
)
    requires
        h.frame_type == FrameType::KeyFrame,
        h.frame_is_intra,
        frame_begun(before, h, begun),
        frame_begun(other, h, begun_other),
    ensures
        begun.frame_contexts.contexts@ == begun_other.frame_contexts.contexts@,
        begun.prev_segment_ids@ == begun_other.prev_segment_ids@,
        !prev_mvs_usable(begun, h),
{
    assert(begun.frame_contexts.contexts@ =~= begun_other.frame_contexts.contexts@) by {
        assert forall|i: int| 0 <= i < 4 implies begun.frame_contexts.contexts@[i]
            == begun_other.frame_contexts.contexts@[i] by {
            assert(begun.frame_contexts.contexts[i] == default_probs());
            assert(begun_other.frame_contexts.contexts[i] == default_probs());
        }
    }
    assert(begun.prev_segment_ids@ =~= begun_other.prev_segment_ids@);
}

/// A frame that shows a reference frame again has a picture and no header facts;
/// one that is decoded has header facts, and a picture where it is shown.
pub proof fn lemma_outcome_kinds<L: BlockLayer>(
    before: Session<L>,
    d: Seq<u8>,
    after: Session<L>,
    res: Result<DecodedFrame, DecodeError>,
)
    requires
        one_frame(before, d, after, res),
        res is Ok,
    ensures
        shows_existing(d) ==> res->Ok_0.info is None && res->Ok_0.frame is Some,
        !shows_existing(d) ==> res->Ok_0.info is Some && res->Ok_0.frame is Some == is_shown(d),
{
    if !shows_existing(d) {
        let h = choose|h: NewFrameHeader|
            #![trigger header_at(d, before.decoder.persist, h)]
            header_at(d, before.decoder.persist, h) && new_frame(
                before,
                d,
                units8(header_size_pos(d, before.decoder.persist) + 16),
                h,
                after,
                res,
            );
        assert(h.show_frame == is_shown(d));
    }
}

/// A frame that is refused by its first header, or that shows a reference frame
/// again, leaves the decoder as it is.
pub proof fn lemma_state_unchanged<L: BlockLayer>(
    before: Session<L>,
    d: Seq<u8>,
    after: Session<L>,
    res: Result<DecodedFrame, DecodeError>,
)
    requires
        one_frame(before, d, after, res),
        header_refusal(d) is Some || shows_existing(d),
    ensures
        after == before,
{
}

/// A frame that fails keeps every reference slot, and all that headers need to
/// know of earlier frames.
pub proof fn lemma_failure_keeps_references<L: BlockLayer>(
    before: Session<L>,
    d: Seq<u8>,
    after: Session<L>,
    res: Result<DecodedFrame, DecodeError>,
)
    requires
        one_frame(before, d, after, res),
        res is Err,
    ensures
        after.decoder.dpb == before.decoder.dpb,
        after.decoder.persist == before.decoder.persist,
        after.decoder.prev_frame_dims == before.decoder.prev_frame_dims,
        after.decoder.prev_show_frame == before.decoder.prev_show_frame,
        after.decoder.last_frame_type == before.decoder.last_frame_type,
{
}

impl Decoder {
    /// Decodes a frame whose first header has been read.
    #[verifier::spinoff_prover]
    #[verifier::rlimit(40)]
    fn decode_new_frame<L: BlockLayer>(
        &mut self,
        layer: &mut L,
        data: &[u8],
        header: &NewFrameHeader,
        consumed: usize,
    ) -> (res: Result<DecodedFrame, DecodeError>)
        requires
            old(self).wf(),
            header_bounded(*header),
            8 * data.len() <= usize::MAX,
        ensures
            final(self).wf(),
            new_frame(
                session(*old(self), *old(layer)),
                data@,
                consumed as int,
                *header,
                session(*final(self), *final(layer)),
                res,
            ),
    {
        let mut started: StartedFrame = match self.start_frame(data, header, consumed) {
            Ok(s) => s,
            Err(e) => {
                return Err(e);
            },
        };
        let ghost begun = session(*self, *layer);
        let ghost t0 = started.tiles;
        let tile_data: &[u8] = vstd::slice::slice_subrange(data, started.tile_start, data.len());
        assert(tile_data@ =~= data@.skip(consumed + header.header_size_in_bytes));
        let decoded: Result<(), TileError> = started.tiles.decode_tiles(layer, tile_data);
        let ghost t1 = started.tiles;
        let ghost c = started.compressed;
        let ghost cc = started.color_config;
        match decoded {
            Ok(()) => {
                let out: DecodedFrame = self.finish_frame(header, started);
                let ghost after = session(*self, *layer);
                assert(tiles_done(begun, tile_data@, *header, cc, c, t0, t1, after, Ok(out)));
                Ok(out)
            },
            Err(e) => {
                let err: DecodeError = DecodeError::Tile(e);
                let ghost after = session(*self, *layer);
                assert(tiles_done(begun, tile_data@, *header, cc, c, t0, t1, after, Err(err)));
                Err(err)
            },
        }
    }

    /// Decodes one frame. Whatever comes of it, the decoder stays usable.
    ///
    /// `layer` reads the mode info and the residual of each block.
    #[verifier::spinoff_prover]
    pub fn decode_one_frame<L: BlockLayer>(
        &mut self,
        layer: &mut L,
        frame_data: &[u8],
    ) -> (res: Result<
        DecodedFrame,
        DecodeError,
    >)
        requires
            old(self).wf(),
            8 * frame_data.len() <= usize::MAX,
        ensures
            final(self).wf(),
            one_frame(
                session(*old(self), *old(layer)),
                frame_data@,
                session(*final(self), *final(layer)),
                res,
            ),
    {
        match parse_uncompressed_header(frame_data, &self.persist) {
            Ok((FrameHeader::New(header), consumed)) => {
                proof {
                    lemma_header_bounded(frame_data@, self.persist, header);
                }
                self.decode_new_frame(layer, frame_data, &header, consumed)
            },
            Ok((FrameHeader::ShowExistingFrame { frame_to_show_map_idx }, _)) => {
                proof {
                    lemma_bits_value_range(frame_data@, show_existing_pos(frame_data@) + 1, 3);
                }
                match self.dpb.get(frame_to_show_map_idx) {
                    Some(data) => Ok(
                        DecodedFrame { info: None, frame: Some(ref_frame_data_to_frame(data)) },
                    ),
                    None => Err(DecodeError::MissingReferenceFrame),
                }
            },
            Err(e) => Err(DecodeError::Header(e)),
        }
    }
}

// ---------------------------------------------------------------------------
// Chunks.
// ---------------------------------------------------------------------------

/// A frame after position `k` is shown.
pub open spec fn shown_after(outs: Seq<DecodedFrame>, k: int) -> bool {
    exists|j: int| k < j < outs.len() && (#[trigger] outs[j]).frame is Some
}

/// The outcomes of the frames of a chunk: only the last picture is kept.
pub open spec fn last_shown(outs: Seq<DecodedFrame>) -> Seq<DecodedFrame> {
    Seq::new(
        outs.len(),
        |k: int|
            if shown_after(outs, k) {
                DecodedFrame { frame: None, ..outs[k] }
            } else {
                outs[k]
            },
    )
}

/// The frames were decoded one after the other, each from where the one before
/// it left the decoder and the layer.
pub open spec fn frames_decoded<L: BlockLayer>(
    states: Seq<Session<L>>,
    frames: Seq<Seq<u8>>,
    outs: Seq<DecodedFrame>,
) -> bool {
    &&& states.len() == outs.len() + 1
    &&& outs.len() <= frames.len()
    &&& forall|k: int|
        0 <= k < outs.len() ==> one_frame(
            states[k],
            #[trigger] frames[k],
            states[k + 1],
            Ok(outs[k]),
        )
}

/// What becomes of a chunk: its frames are decoded in turn, up to the first that
/// fails.
pub open spec fn chunk_decoded<L: BlockLayer>(
    before: Session<L>,
    frames: Seq<Seq<u8>>,
    after: Session<L>,
    res: Result<Vec<DecodedFrame>, DecodeError>,
) -> bool {
    exists|states: Seq<Session<L>>, outs: Seq<DecodedFrame>|
        {
            &&& #[trigger] frames_decoded(states, frames, outs)
            &&& states[0] == before
            &&& match res {
                Ok(v) => {
                    &&& outs.len() == frames.len()
                    &&& after == states.last()
                    &&& v@ == last_shown(outs)
                },
                Err(e) => {
                    &&& outs.len() < frames.len()
                    &&& one_frame(states.last(), frames[outs.len() as int], after, Err(e))
                },
            }
        }
}

/// The same outcome of a chunk: the same error, or the same information and the
/// same pictures.
pub open spec fn same_outcome(
    a: Result<Vec<DecodedFrame>, DecodeError>,
    b: Result<Vec<DecodedFrame>, DecodeError>,
) -> bool {
    match (a, b) {
        (Ok(v), Ok(w)) => {
            &&& v@.len() == w@.len()
            &&& forall|i: int|
                0 <= i < v@.len() ==> (#[trigger] v@[i]).info == w@[i].info && match (
                    v@[i].frame,
                    w@[i].frame,
                ) {
                    (Some(f), Some(g)) => same_picture(f, g),
                    (None, None) => true,
                    _ => false,
                }
        },
        (Err(e), Err(g)) => e == g,
        _ => false,
    }
}

/// A chunk of one byte can ask to show any of the eight reference slots again.
pub proof fn lemma_show_chunk(slot: u8)
    requires
        slot < 8,
    ensures
        ({
            let chunk = seq![0x88u8 | slot];
            &&& frames_of(chunk) == seq![chunk]
            &&& header_refusal(chunk) is None
            &&& shows_existing(chunk)
            &&& shown_slot(chunk) == slot
        }),
{
    let b = 0x88u8 | slot;
    let chunk = seq![b];
    assert((b >> 7u8) & 1u8 == 1u8 && (b >> 6u8) & 1u8 == 0u8 && (b >> 5u8) & 1u8 == 0u8 && (b
        >> 4u8) & 1u8 == 0u8 && (b >> 3u8) & 1u8 == 1u8 && 4u8 * ((b >> 2u8) & 1u8) + 2u8 * ((b
        >> 1u8) & 1u8) + ((b >> 0u8) & 1u8) == slot) by (bit_vector)
        requires
            slot < 8u8,
            b == 0x88u8 | slot,
    ;
    reveal_with_fuel(bits_value, 4);
}

/// Showing a stored frame changes nothing, and a frame that fails changes no
/// stored picture: shown before the failure and after it, a slot gives the same.
pub proof fn lemma_failure_keeps_shown_pictures<L: BlockLayer>(
    first: Session<L>,
    show: Seq<u8>,
    shown: Session<L>,
    before: Result<Vec<DecodedFrame>, DecodeError>,
    chunk: Seq<u8>,
    failed: Session<L>,
    failure: Result<Vec<DecodedFrame>, DecodeError>,
    last: Session<L>,
    again: Result<Vec<DecodedFrame>, DecodeError>,
)
    requires
        frames_of(show).len() == 1,
        header_refusal(frames_of(show)[0]) is None,
        shows_existing(frames_of(show)[0]),
        chunk_decoded(first, frames_of(show), shown, before),
        frames_of(chunk).len() == 1,
        chunk_decoded(shown, frames_of(chunk), failed, failure),
        failure is Err,
        chunk_decoded(failed, frames_of(show), last, again),
    ensures
        shown == first,
        last == failed,
        failed.decoder.dpb == first.decoder.dpb,
        same_outcome(before, again),
{
    lemma_chunk_of_one(first, frames_of(show), shown, before);
    lemma_chunk_of_one(shown, frames_of(chunk), failed, failure);
    lemma_chunk_of_one(failed, frames_of(show), last, again);
}

/// What becomes of a chunk of one frame is what becomes of the frame.
proof fn lemma_chunk_of_one<L: BlockLayer>(
    before: Session<L>,
    frames: Seq<Seq<u8>>,
    after: Session<L>,
    res: Result<Vec<DecodedFrame>, DecodeError>,
) -> (out: Result<DecodedFrame, DecodeError>)
    requires
        frames.len() == 1,
        chunk_decoded(before, frames, after, res),
    ensures
        one_frame(before, frames[0], after, out),
        match res {
            Ok(v) => out is Ok && v@ == seq![out->Ok_0],
            Err(e) => out == Err::<DecodedFrame, DecodeError>(e),
        },
{
    let (states, outs) = choose|states: Seq<Session<L>>, outs: Seq<DecodedFrame>|
        {
            &&& #[trigger] frames_decoded(states, frames, outs)
            &&& states[0] == before
            &&& match res {
                Ok(v) => {
                    &&& outs.len() == frames.len()
                    &&& after == states.last()
                    &&& v@ == last_shown(outs)
                },
                Err(e) => {
                    &&& outs.len() < frames.len()
                    &&& one_frame(states.last(), frames[outs.len() as int], after, Err(e))
                },
            }
        };
    match res {
        Ok(v) => {
            assert(one_frame(states[0], frames[0], states[1], Ok(outs[0])));
            assert(last_shown(outs) =~= seq![outs[0]]);
            Ok(outs[0])
        },
        Err(e) => Err(e),
    }
}

/// At most one picture is kept, and one is kept where there is any.
pub proof fn lemma_one_picture(outs: Seq<DecodedFrame>)
    ensures
        last_shown(outs).len() == outs.len(),
        forall|k: int| 0 <= k < outs.len() ==> (#[trigger] last_shown(outs)[k]).info == outs[k].info,
        forall|i: int, j: int|
            0 <= i < j < outs.len() ==> !((#[trigger] last_shown(outs)[i]).frame is Some && (
            #[trigger] last_shown(outs)[j]).frame is Some),
        (exists|k: int| 0 <= k < outs.len() && (#[trigger] outs[k]).frame is Some) ==> exists|k: int|
            0 <= k < outs.len() && (#[trigger] last_shown(outs)[k]).frame is Some,
{
    let r = last_shown(outs);
    assert forall|i: int, j: int| 0 <= i < j < outs.len() implies !((#[trigger] r[i]).frame is Some && (
    #[trigger] r[j]).frame is Some) by {
        if r[j].frame is Some {
            assert(outs[j].frame is Some);
            assert(shown_after(outs, i));
        }
    }
    if exists|k: int| 0 <= k < outs.len() && (#[trigger] outs[k]).frame is Some {
        let k = choose|k: int| 0 <= k < outs.len() && (#[trigger] outs[k]).frame is Some;
        lemma_last_picture(outs, k);
    }
}

/// A chunk gives one outcome for each of its frames, and at most one picture.
pub proof fn lemma_chunk_shows_one_picture<L: BlockLayer>(
    before: Session<L>,
    frames: Seq<Seq<u8>>,
    after: Session<L>,
    v: Vec<DecodedFrame>,
)
    requires
        chunk_decoded(before, frames, after, Ok(v)),
    ensures
        v@.len() == frames.len(),
        forall|i: int, j: int|
            0 <= i < j < v@.len() ==> !((#[trigger] v@[i]).frame is Some && (#[trigger] v@[j]).frame is Some),
{
    let (states, outs) = choose|states: Seq<Session<L>>, outs: Seq<DecodedFrame>|
        {
            &&& #[trigger] frames_decoded(states, frames, outs)
            &&& states[0] == before
            &&& outs.len() == frames.len()
            &&& after == states.last()
            &&& v@ == last_shown(outs)
        };
    lemma_one_picture(outs);
}

/// The last picture from position `k` on is kept.
proof fn lemma_last_picture(outs: Seq<DecodedFrame>, k: int)
    requires
        0 <= k < outs.len(),
        outs[k].frame is Some,
    ensures
        exists|j: int| 0 <= j < outs.len() && (#[trigger] last_shown(outs)[j]).frame is Some,
    decreases outs.len() - k,
{
    if shown_after(outs, k) {
        let j = choose|j: int| k < j < outs.len() && (#[trigger] outs[j]).frame is Some;
        lemma_last_picture(outs, j);
    } else {
        assert(last_shown(outs)[k].frame is Some);
    }
}

/// A chunk with a single frame gives out what that frame gives.
pub proof fn lemma_single_frame(outs: Seq<DecodedFrame>)
    requires
        outs.len() <= 1,
    ensures
        last_shown(outs) == outs,
{
    assert(last_shown(outs) =~= outs);
}

/// Drops all pictures but the last.
fn keep_last_shown(decoded: &mut Vec<DecodedFrame>)
    ensures
        final(decoded)@ == last_shown(old(decoded)@),
{
    let ghost outs = decoded@;
    let mut seen: bool = false;
    let mut i: usize = decoded.len();
    assert(!shown_after(outs, decoded.len() - 1));
    while i > 0
        invariant
            0 <= i <= decoded.len(),
            decoded@.len() == outs.len(),
            seen == shown_after(outs, i - 1),
            forall|k: int| 0 <= k < i ==> #[trigger] decoded@[k] == outs[k],
            forall|k: int| i <= k < outs.len() ==> #[trigger] decoded@[k] == last_shown(outs)[k],
        decreases i,
    {
        i = i - 1;
        assert(shown_after(outs, i - 1) == (outs[i as int].frame is Some || shown_after(
            outs,
            i as int,
        ))) by {
            if shown_after(outs, i - 1) && !(outs[i as int].frame is Some) {
                let j = choose|j: int| i - 1 < j < outs.len() && (#[trigger] outs[j]).frame is Some;
                assert(j > i);
            }
        }
        if seen {
            decoded[i].frame = None;
        } else if decoded[i].frame.is_some() {
            seen = true;
        }
    }
    assert(decoded@ =~= last_shown(outs));
}

impl Decoder {
    /// Decodes a chunk, which holds one frame or several. The outcomes are in
    /// decoding order; of the pictures that are shown only the last is kept.
    ///
    /// Stops at the first frame that fails. Whatever comes of it, the decoder
    /// stays usable.
    #[verifier::spinoff_prover]
    pub fn decode_frame<L: BlockLayer>(&mut self, layer: &mut L, chunk: &[u8]) -> (res: Result<
        Vec<DecodedFrame>,
        DecodeError,
    >)
        requires
            old(self).wf(),
            8 * chunk.len() <= usize::MAX,
        ensures
            final(self).wf(),
            chunk_decoded(
                session(*old(self), *old(layer)),
                frames_of(chunk@),
                session(*final(self), *final(layer)),
                res,
            ),
    {
        let mut decoded: Vec<DecodedFrame> = Vec::new();
        let frames: Vec<&[u8]> = split_superframe(chunk);
        let ghost all = frames_of(chunk@);
        let ghost mut states: Seq<Session<L>> = seq![session(*self, *layer)];
        assert(frames_decoded(states, all, decoded@));
        for k in 0..frames.len()
            invariant
                self.wf(),
                8 * chunk.len() <= usize::MAX,
                all == frames_of(chunk@),
                frames.len() == all.len(),
                forall|i: int| 0 <= i < frames.len() ==> #[trigger] frames[i]@ == all[i],
                decoded.len() == k,
                frames_decoded(states, all, decoded@),
                states[0] == session(*old(self), *old(layer)),
                states.last() == session(*self, *layer),
        {
            let frame_data: &[u8] = frames[k];
            proof {
                lemma_frame_len(chunk@, k as int);
            }
            match self.decode_one_frame(layer, frame_data) {
                Ok(d) => {
                    let ghost outs = decoded@;
                    let ghost earlier = states;
                    decoded.push(d);
                    proof {
                        states = states.push(session(*self, *layer));
                        assert forall|i: int| 0 <= i < decoded@.len() implies one_frame(
                            states[i],
                            #[trigger] all[i],
                            states[i + 1],
                            Ok(decoded@[i]),
                        ) by {
                            if i < k {
                                assert(one_frame(earlier[i], all[i], earlier[i + 1], Ok(outs[i])));
                            }
                        }
                    }
                },
                Err(e) => {
                    assert(frames_decoded(states, all, decoded@));
                    return Err(e);
                },
            }
        }
        let ghost outs = decoded@;
        keep_last_shown(&mut decoded);
        assert(frames_decoded(states, all, outs));
        Ok(decoded)
    }
}

/// No frame is longer than the chunk.
proof fn lemma_frame_len(chunk: Seq<u8>, k: int)
    requires
        0 <= k < frames_of(chunk).len(),
    ensures
        frames_of(chunk)[k].len() <= chunk.len(),
{
    if is_superframe(chunk) {
        let n = frame_count(chunk.last());
        lemma_frame_start_monotone(chunk, k, k + 1);
        lemma_frame_start_monotone(chunk, k + 1, n);
    }
}

} // verus!
