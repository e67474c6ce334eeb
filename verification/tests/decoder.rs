//! The decoder, with a block layer that paints blocks in one colour.

use vp9dec::bool_coder::{BoolCoderError, BoolDecoder};
use vp9dec::compressed_header::{CompressedHeaderError, FrameContext};
use vp9dec::counts::merge_prob;
use vp9dec::header::{HeaderError, CS_BT_601, CS_UNKNOWN};
use vp9dec::prob_tables::{BLOCK_16X16, BLOCK_8X8};
use vp9dec::test_support::script::{ScriptLayer, ScriptedBlock};
use vp9dec::test_support::BitWriter;
use vp9dec::tile::decoder::block_position;
use vp9dec::tile::{BlockContexts, BlockLayer, BlockPos, MiInfo, Residual, SampleWrite, TileError, TileFrame};
use vp9dec::{DecodeError, DecodedFrame, Decoder, Frame, PlaneData};

/// What can be chosen in a test frame.
#[derive(Clone)]
struct Setup {
    profile: u32,
    inter: bool,
    intra_only: bool,
    show: bool,
    resilient: bool,
    reset: u32,
    width: u32,
    height: u32,
    refresh: u32,
    refs: [u32; 3],
    /// Take the size of the first reference.
    size_of_ref: bool,
    refresh_context: bool,
    parallel: bool,
    context: u32,
    level: u32,
    segment_map: bool,
    two_tile_rows: bool,
    header_size: Option<u32>,
    second_header: Vec<u8>,
    tiles: Vec<u8>,
}

fn key(width: u32, height: u32) -> Setup {
    Setup {
        profile: 0,
        inter: false,
        intra_only: false,
        show: true,
        resilient: false,
        reset: 0,
        width,
        height,
        refresh: 0xff,
        refs: [0, 1, 2],
        size_of_ref: false,
        refresh_context: false,
        parallel: true,
        context: 0,
        level: 0,
        segment_map: false,
        two_tile_rows: false,
        header_size: None,
        second_header: vec![0; 8],
        tiles: vec![0; 16],
    }
}

fn inter(width: u32, height: u32, refresh: u32) -> Setup {
    Setup {
        inter: true,
        refresh,
        second_header: vec![0; 80],
        ..key(width, height)
    }
}

fn color_config(w: &mut BitWriter, profile: u32) {
    w.push_bits(CS_UNKNOWN as u32, 3);
    w.push_flag(false);
    if profile == 1 {
        // 4:4:4
        w.push_bits(0, 3);
    }
}

/// The bytes of a frame.
fn frame(s: &Setup) -> Vec<u8> {
    let mut w = BitWriter::new();
    w.push_bits(2, 2);
    w.push_bits(s.profile & 1, 1);
    w.push_bits(s.profile >> 1, 1);
    w.push_flag(false);
    w.push_flag(s.inter || s.intra_only);
    w.push_flag(s.show);
    w.push_flag(s.resilient);
    if !s.inter && !s.intra_only {
        w.push_bits(0x49_8342, 24);
        color_config(&mut w, s.profile);
        w.push_bits(s.width - 1, 16);
        w.push_bits(s.height - 1, 16);
        w.push_flag(false);
    } else {
        if !s.show {
            w.push_flag(s.intra_only);
        }
        if !s.resilient {
            w.push_bits(s.reset, 2);
        }
        if s.intra_only {
            w.push_bits(0x49_8342, 24);
            if s.profile > 0 {
                color_config(&mut w, s.profile);
            }
            w.push_bits(s.refresh, 8);
            w.push_bits(s.width - 1, 16);
            w.push_bits(s.height - 1, 16);
            w.push_flag(false);
        } else {
            w.push_bits(s.refresh, 8);
            for r in s.refs {
                w.push_bits(r, 3);
                w.push_flag(false);
            }
            if s.size_of_ref {
                w.push_flag(true);
            } else {
                w.push_bits(0, 3);
                w.push_bits(s.width - 1, 16);
                w.push_bits(s.height - 1, 16);
            }
            w.push_flag(false);
            w.push_flag(false);
            w.push_flag(false);
            w.push_bits(1, 2);
        }
    }
    if !s.resilient {
        w.push_flag(s.refresh_context);
        w.push_flag(s.parallel);
    }
    w.push_bits(s.context, 2);
    w.push_bits(s.level, 6);
    w.push_bits(0, 3);
    w.push_flag(false);
    w.push_bits(60, 8);
    w.push_bits(0, 3);
    if s.segment_map {
        w.push_flag(true);
        w.push_flag(true);
        w.push_bits(0, 7);
        w.push_flag(false);
        // New features: segment 2 is always skipped.
        w.push_flag(true);
        w.push_flag(false);
        for segment in 0..8 {
            w.push_bits(0, 3);
            w.push_flag(segment == 2);
        }
    } else {
        w.push_flag(false);
    }
    // Tile columns: as few as possible.
    let sbs = (s.width + 63) / 64;
    if sbs >= 8 {
        w.push_flag(false);
    }
    w.push_flag(s.two_tile_rows);
    if s.two_tile_rows {
        w.push_flag(false);
    }
    w.push_bits(s.header_size.unwrap_or(s.second_header.len() as u32), 16);
    let mut out = w.finish();
    out.extend_from_slice(&s.second_header);
    out.extend_from_slice(&s.tiles);
    out
}

fn show_existing(slot: u32) -> Vec<u8> {
    let mut w = BitWriter::new();
    w.push_bits(2, 2);
    w.push_bits(0, 2);
    w.push_flag(true);
    w.push_bits(slot, 3);
    w.finish()
}

/// Which of the two methods was asked for the mode info of a block.
#[derive(Debug, Clone, Copy, PartialEq, Eq)]
enum Reader {
    Intra,
    Inter,
}

/// Paints each block in one colour: the given one, plus `step` for every block
/// so far.
struct Painter {
    colour: u16,
    step: u16,
    blocks: Vec<BlockPos>,
    read_by: Vec<Reader>,
    refusal: Option<TileError>,
    size: Option<u8>,
    ref_frame: [u8; 2],
    segment: u8,
}

fn painter(colour: u16) -> Painter {
    Painter {
        colour,
        step: 0,
        blocks: Vec::new(),
        read_by: Vec::new(),
        refusal: None,
        size: None,
        ref_frame: [0, 0],
        segment: 0,
    }
}

impl Painter {
    fn next_block(&mut self, frame: &TileFrame, block: BlockPos) -> Result<MiInfo, TileError> {
        let place = block_position(frame, block.row, block.col, block.size);
        assert_eq!(place.avail_above, block.row > 0);
        assert_eq!(
            (place.row, place.col, place.size, place.avail_above, place.avail_left),
            (block.row, block.col, block.size, block.avail_above, block.avail_left)
        );
        self.blocks.push(block);
        if let Some(e) = self.refusal {
            return Err(e);
        }
        let mut info = MiInfo::default();
        info.mi_size = self.size.unwrap_or(block.size);
        info.ref_frame = self.ref_frame;
        info.segment_id = self.segment;
        Ok(info)
    }
}

impl BlockLayer for Painter {
    fn intra_frame_mode_info(
        &mut self,
        frame: &TileFrame,
        _contexts: &mut BlockContexts,
        _r: &mut BoolDecoder,
        block: BlockPos,
    ) -> Result<MiInfo, TileError> {
        self.read_by.push(Reader::Intra);
        self.next_block(frame, block)
    }

    fn inter_frame_mode_info(
        &mut self,
        frame: &TileFrame,
        _contexts: &mut BlockContexts,
        _r: &mut BoolDecoder,
        block: BlockPos,
    ) -> Result<MiInfo, TileError> {
        self.read_by.push(Reader::Inter);
        self.next_block(frame, block)
    }

    fn residual(
        &mut self,
        frame: &TileFrame,
        _contexts: &mut BlockContexts,
        _r: &mut BoolDecoder,
        block: BlockPos,
        _info: &MiInfo,
        is_inter: bool,
    ) -> Residual {
        assert_eq!(is_inter, self.ref_frame[0] != 0);
        let value = self.colour + self.step * self.blocks.len() as u16;
        let mut samples = Vec::new();
        let wide = vp9dec::prob_tables::NUM_8X8_BLOCKS_WIDE_LOOKUP[block.size as usize] as usize * 8;
        let high = vp9dec::prob_tables::NUM_8X8_BLOCKS_HIGH_LOOKUP[block.size as usize] as usize * 8;
        for plane in 0..3usize {
            let (sx, sy) = if plane == 0 {
                (0, 0)
            } else {
                (frame.subsampling_x, frame.subsampling_y)
            };
            for y in 0..high >> sy {
                for x in 0..wide >> sx {
                    samples.push(SampleWrite {
                        plane: plane as _,
                        x: (((block.col as usize * 8) >> sx) + x) as _,
                        y: (((block.row as usize * 8) >> sy) + y) as _,
                        value: value + plane as u16,
                    });
                }
            }
        }
        Residual { eob_total: 1, samples }
    }
}

fn decode(d: &mut Decoder, p: &mut Painter, s: &Setup) -> Result<Vec<DecodedFrame>, DecodeError> {
    d.decode_frame(p, &frame(s))
}

fn picture(out: Vec<DecodedFrame>) -> Frame {
    assert_eq!(out.len(), 1);
    out.into_iter().next().and_then(|f| f.frame).expect("a shown frame")
}

#[test]
fn a_key_frame_is_decoded_and_shown() {
    let mut d = Decoder::new();
    let mut p = painter(90);
    let out = decode(&mut d, &mut p, &key(13, 9)).expect("a valid frame");
    assert_eq!(out.len(), 1);
    let info = out[0].info.expect("a decoded frame");
    assert!(info.frame_is_intra && !info.intra_only && !info.segmentation_enabled);
    assert_eq!(info.reset_frame_context, 0);
    assert_eq!(info.seg_features_active, [false; 4]);
    let f = picture(out);
    assert_eq!((f.width, f.height, f.bit_depth), (13, 9, 8));
    assert_eq!((f.subsampling_x, f.subsampling_y), (1, 1));
    assert_eq!(f.y, PlaneData::U8(vec![90; 13 * 9]));
    assert_eq!(f.u, PlaneData::U8(vec![91; 7 * 5]));
    assert_eq!(f.v, PlaneData::U8(vec![92; 7 * 5]));
    assert_eq!(f.u.len(), 35);
    assert!(!f.u.is_empty());
    assert_eq!(f.u.as_u8()[34], 91);
    // Two by two units are one undivided block.
    assert_eq!(p.blocks.len(), 1);
    assert_eq!((p.blocks[0].row, p.blocks[0].col, p.blocks[0].size), (0, 0, BLOCK_16X16));
    assert!(!p.blocks[0].avail_above && !p.blocks[0].avail_left);
}

#[test]
fn a_stored_frame_is_shown_again() {
    let mut d = Decoder::new();
    let first = picture(decode(&mut d, &mut painter(50), &key(16, 16)).expect("a valid frame"));
    let mut hidden = inter(16, 16, 0b0000_1000);
    hidden.show = false;
    let out = decode(&mut d, &mut painter(70), &hidden).expect("a valid frame");
    assert!(out[0].info.is_some() && out[0].frame.is_none());
    let again = d.decode_frame(&mut painter(0), &show_existing(0)).expect("a stored frame");
    assert!(again[0].info.is_none());
    assert_eq!(picture(again), first);
    let other = picture(d.decode_frame(&mut painter(0), &show_existing(3)).expect("a stored frame"));
    assert_eq!(other.y, PlaneData::U8(vec![70; 256]));
}

#[test]
fn nothing_can_be_shown_before_it_is_stored() {
    let mut d = Decoder::new();
    assert_eq!(
        d.decode_frame(&mut painter(0), &show_existing(2)),
        Err(DecodeError::MissingReferenceFrame)
    );
}

#[test]
fn only_the_last_shown_frame_of_a_chunk_is_kept() {
    let a = frame(&key(8, 8));
    let b = frame(&key(16, 8));
    let mut hidden = inter(16, 8, 1);
    hidden.show = false;
    let c = frame(&hidden);
    let mut chunk = Vec::new();
    for part in [&a, &b, &c] {
        chunk.extend_from_slice(part);
    }
    let marker = 0xc0u8 | 1 << 3 | 2;
    chunk.push(marker);
    for part in [&a, &b, &c] {
        chunk.extend_from_slice(&(part.len() as u16).to_le_bytes());
    }
    chunk.push(marker);
    let mut d = Decoder::new();
    let out = d.decode_frame(&mut painter(10), &chunk).expect("valid frames");
    assert_eq!(out.len(), 3);
    assert!(out.iter().all(|f| f.info.is_some()));
    assert!(out[0].frame.is_none() && out[2].frame.is_none());
    assert_eq!(out[1].frame.as_ref().map(|f| f.width), Some(16));
}

#[test]
fn headers_are_refused() {
    let mut d = Decoder::new();
    let mut p = painter(1);
    assert_eq!(
        d.decode_frame(&mut p, &[0x40]),
        Err(DecodeError::Header(HeaderError::InvalidFrameMarker))
    );
    assert_eq!(
        d.decode_frame(&mut p, &[0x82, 0, 0, 0, 0]),
        Err(DecodeError::Header(HeaderError::InvalidSyncCode))
    );
    let mut s = key(8, 8);
    s.header_size = Some(25);
    assert_eq!(decode(&mut d, &mut p, &s), Err(DecodeError::TruncatedFrame));
    assert_eq!(
        decode(&mut d, &mut p, &key(65536, 65536)),
        Err(DecodeError::Header(HeaderError::FrameSizeTooLarge))
    );
    s.header_size = Some(0);
    assert_eq!(
        decode(&mut d, &mut p, &s),
        Err(DecodeError::CompressedHeader(CompressedHeaderError::BoolCoder(
            BoolCoderError::EmptyBuffer
        )))
    );
    let mut s = key(8, 8);
    s.second_header[0] = 0xff;
    assert_eq!(
        decode(&mut d, &mut p, &s),
        Err(DecodeError::CompressedHeader(CompressedHeaderError::BoolCoder(
            BoolCoderError::InvalidMarker
        )))
    );
    assert!(p.blocks.is_empty());
    assert!(decode(&mut d, &mut p, &key(8, 8)).is_ok());
}

#[test]
fn references_of_another_format_are_refused() {
    let mut d = Decoder::new();
    decode(&mut d, &mut painter(1), &key(8, 8)).expect("a valid frame");
    let mut other = key(8, 8);
    other.profile = 1;
    other.intra_only = true;
    other.show = false;
    other.refresh = 0b10;
    decode(&mut d, &mut painter(2), &other).expect("a valid frame");
    assert_eq!(
        decode(&mut d, &mut painter(3), &inter(8, 8, 1)),
        Err(DecodeError::Header(HeaderError::RefFrameFormatMismatch))
    );
    let mut matching = inter(8, 8, 1);
    matching.refs = [1, 1, 1];
    let f = picture(decode(&mut d, &mut painter(4), &matching).expect("a valid frame"));
    assert_eq!((f.subsampling_x, f.subsampling_y), (0, 0));
    assert_eq!(f.u, PlaneData::U8(vec![5; 64]));
}

#[test]
fn tiles_are_refused_and_the_decoder_goes_on() {
    let mut d = Decoder::new();
    let good = key(8, 8);
    let mut s = good.clone();
    s.tiles = Vec::new();
    assert_eq!(
        decode(&mut d, &mut painter(1), &s),
        Err(DecodeError::Tile(TileError::BoolCoder(BoolCoderError::EmptyBuffer)))
    );
    s.tiles = vec![0x80, 0];
    assert_eq!(
        decode(&mut d, &mut painter(1), &s),
        Err(DecodeError::Tile(TileError::BoolCoder(BoolCoderError::InvalidMarker)))
    );
    s.tiles = vec![0; 400];
    assert_eq!(
        decode(&mut d, &mut painter(1), &s),
        Err(DecodeError::Tile(TileError::CorruptTile))
    );
    s.tiles = vec![0, 0, 0, 200, 0, 0];
    s.two_tile_rows = true;
    assert_eq!(
        decode(&mut d, &mut painter(1), &s),
        Err(DecodeError::Tile(TileError::InvalidTileSize))
    );
    let mut p = painter(1);
    p.refusal = Some(TileError::MissingReference);
    assert_eq!(decode(&mut d, &mut p, &good), Err(DecodeError::Tile(TileError::MissingReference)));
    let mut p = painter(1);
    p.size = Some(12);
    assert_eq!(decode(&mut d, &mut p, &good), Err(DecodeError::Tile(TileError::InvalidPartition)));
    assert!(d.dpb.get(0).is_none());
    let f = picture(decode(&mut d, &mut painter(33), &good).expect("a valid frame"));
    assert_eq!(f.y, PlaneData::U8(vec![33; 64]));
}

#[test]
fn two_tiles_are_decoded_in_turn() {
    let mut s = key(8, 128);
    s.two_tile_rows = true;
    s.tiles = vec![0, 0, 0, 3, 0, 0, 0, 0, 0];
    let mut d = Decoder::new();
    let mut p = painter(1);
    decode(&mut d, &mut p, &s).expect("a valid frame");
    let places: Vec<(u32, u32)> = p.blocks.iter().map(|b| (b.row, b.col)).collect();
    assert_eq!(places, vec![(0, 0), (8, 0)]);
}

#[test]
fn inter_blocks_need_references_of_a_usable_size() {
    let mut d = Decoder::new();
    let mut p = painter(1);
    p.ref_frame = [1, 0];
    assert_eq!(
        decode(&mut d, &mut p, &inter(8, 8, 1)),
        Err(DecodeError::Tile(TileError::MissingReference))
    );
    decode(&mut d, &mut painter(1), &key(32, 16)).expect("a valid frame");
    assert_eq!(
        decode(&mut d, &mut p, &inter(8, 8, 1)),
        Err(DecodeError::Tile(TileError::RefFrameSizeOutOfRange))
    );
    // A frame that lists the large reference but does not use it is fine.
    assert!(decode(&mut d, &mut painter(1), &inter(8, 8, 0)).is_ok());
    // Twice the size is fine too.
    let f = picture(decode(&mut d, &mut p, &inter(16, 16, 1)).expect("a valid frame"));
    assert_eq!((f.width, f.height), (16, 16));
}

#[test]
fn a_frame_can_take_the_size_of_a_reference() {
    let mut d = Decoder::new();
    decode(&mut d, &mut painter(1), &key(24, 40)).expect("a valid frame");
    let mut s = inter(1, 1, 0);
    s.size_of_ref = true;
    let f = picture(decode(&mut d, &mut painter(1), &s).expect("a valid frame"));
    assert_eq!((f.width, f.height), (24, 40));
    assert_eq!(d.prev_frame_dims, Some((24, 40)));
    assert_eq!(d.prev_show_frame, Some(true));
}

#[test]
fn intra_only_frames_have_their_own_format() {
    let mut d = Decoder::new();
    let mut s = key(8, 8);
    s.intra_only = true;
    s.show = false;
    s.refresh = 1;
    let out = decode(&mut d, &mut painter(9), &s).expect("a valid frame");
    let info = out[0].info.expect("a decoded frame");
    assert!(info.intra_only && info.frame_is_intra);
    assert_eq!(d.last_color_config.map(|c| c.color_space), Some(CS_BT_601));
    assert!(d.dpb.get(0).is_some() && d.dpb.get(1).is_none());
    assert_eq!(d.persist.ref_frame_sizes[0], (8, 8));
    assert_eq!(d.persist.ref_frame_sizes[1], (0, 0));
}

#[test]
fn segment_ids_are_kept_where_they_are_updated() {
    let mut d = Decoder::new();
    let mut p = painter(1);
    p.segment = 2;
    let mut s = key(16, 8);
    s.segment_map = true;
    let out = decode(&mut d, &mut p, &s).expect("a valid frame");
    let info = out[0].info.expect("a decoded frame");
    assert!(info.segmentation_enabled);
    assert_eq!(info.seg_features_active, [false, false, false, true]);
    assert_eq!(*d.prev_segment_ids, vec![2u8; 2]);
    assert!(d.persist.segmentation.enabled[2][3]);
    // A frame of the same size that depends on it leaves the ids alone.
    decode(&mut d, &mut painter(1), &inter(16, 8, 0)).expect("a valid frame");
    assert_eq!(*d.prev_segment_ids, vec![2u8; 2]);
    // A frame of another size does not.
    decode(&mut d, &mut painter(1), &inter(24, 8, 0)).expect("a valid frame");
    assert_eq!(*d.prev_segment_ids, vec![0u8; 3]);
}

#[test]
fn partition_counts_adapt_the_saved_context() {
    let mut d = Decoder::new();
    decode(&mut d, &mut painter(1), &key(64, 64)).expect("a valid frame");
    let before = FrameContext::default();
    assert_eq!(d.frame_contexts.load(1), before);
    let mut s = inter(64, 64, 0);
    s.refresh_context = true;
    s.parallel = false;
    s.context = 1;
    let mut p = painter(1);
    decode(&mut d, &mut p, &s).expect("a valid frame");
    assert_eq!(p.blocks.len(), 1);
    let after = d.frame_contexts.load(1);
    // One undivided block of 64x64 without divided neighbours: context 12.
    let expected = merge_prob(before.partition_probs[12][0], 1, 0, 20, 128);
    assert_ne!(expected, before.partition_probs[12][0]);
    assert_eq!(after.partition_probs[12][0], expected);
    let mut restored = after.clone();
    restored.partition_probs[12][0] = before.partition_probs[12][0];
    assert_eq!(restored, before);
    assert_eq!(d.frame_contexts.load(0), before);
    // A key frame sets all contexts back.
    decode(&mut d, &mut painter(1), &key(8, 8)).expect("a valid frame");
    assert_eq!(d.frame_contexts.load(1), before);
}

#[test]
fn the_loop_filter_runs_at_a_level_above_zero() {
    let mut s = key(72, 64);
    let mut p = painter(92);
    p.step = 8;
    let sharp = picture(decode(&mut Decoder::new(), &mut p, &s).expect("a valid frame"));
    assert_eq!(sharp.y.as_u8()[58..70], [100, 100, 100, 100, 100, 100, 108, 108, 108, 108, 108, 108]);
    s.level = 30;
    let mut p = painter(92);
    p.step = 8;
    let smooth = picture(decode(&mut Decoder::new(), &mut p, &s).expect("a valid frame"));
    assert_eq!(smooth.y.as_u8()[58..70], [100, 100, 100, 101, 102, 103, 105, 106, 107, 108, 108, 108]);
}

#[test]
fn larger_frames_are_divided_by_their_partitions() {
    // All partitions are read as undivided where the square lies in the frame.
    let mut d = Decoder::new();
    let mut p = painter(1);
    decode(&mut d, &mut p, &key(72, 64)).expect("a valid frame");
    let places: Vec<(u32, u32, u8)> = p.blocks.iter().map(|b| (b.row, b.col, b.size)).collect();
    assert_eq!(places[0], (0, 0, 12));
    // In the second superblock only one column of units is left.
    assert!(places[1..].iter().all(|&(_, col, _)| col == 8));
    assert!(!p.blocks[1].avail_above && p.blocks[1].avail_left);
    let units: u32 = p
        .blocks
        .iter()
        .map(|b| vp9dec::prob_tables::NUM_8X8_BLOCKS_HIGH_LOOKUP[b.size as usize] as u32)
        .sum();
    assert_eq!(units, 16);
}

#[test]
fn every_unit_belongs_to_one_block() {
    for (fill, width, height) in [(0xffu8, 64, 64), (0x9d, 200, 72), (0x35, 120, 136), (0xe6, 64, 24)] {
        let mut s = key(width, height);
        s.tiles = vec![fill; 140];
        s.tiles[0] = 0x7f & fill;
        let mut p = painter(1);
        let out = decode(&mut Decoder::new(), &mut p, &s);
        assert!(
            out.is_ok() || out == Err(DecodeError::Tile(TileError::CorruptTile)),
            "{out:?}"
        );
        let (cols, rows) = ((width as usize + 7) / 8, (height as usize + 7) / 8);
        let mut hits = vec![0u32; cols * rows];
        for b in &p.blocks {
            let wide = vp9dec::prob_tables::NUM_8X8_BLOCKS_WIDE_LOOKUP[b.size as usize] as usize;
            let high = vp9dec::prob_tables::NUM_8X8_BLOCKS_HIGH_LOOKUP[b.size as usize] as usize;
            for r in b.row as usize..(b.row as usize + high).min(rows) {
                for c in b.col as usize..(b.col as usize + wide).min(cols) {
                    hits[r * cols + c] += 1;
                }
            }
        }
        assert!(hits.iter().all(|&n| n == 1), "fill {fill:#x}");
    }
}

#[test]
fn the_kind_of_frame_decides_who_reads_the_mode_info() {
    let mut d = Decoder::new();
    let mut p = painter(20);
    decode(&mut d, &mut p, &key(72, 64)).expect("a valid frame");
    assert!(p.blocks.len() > 1);
    assert_eq!(p.read_by, vec![Reader::Intra; p.blocks.len()]);
    // The blocks of an inter frame are read by the other method, whether they
    // are predicted from a reference or not.
    for ref_frame in [[0, 0], [1, 0]] {
        let mut p = painter(30);
        p.ref_frame = ref_frame;
        decode(&mut d, &mut p, &inter(72, 64, 1)).expect("a valid frame");
        assert!(p.blocks.len() > 1);
        assert_eq!(p.read_by, vec![Reader::Inter; p.blocks.len()]);
    }
}

fn scripted(size: u8, eob_total: u32, samples: Vec<SampleWrite>) -> ScriptedBlock {
    let mut info = MiInfo::default();
    info.mi_size = size;
    ScriptedBlock { info, residual: Residual { eob_total, samples } }
}

#[test]
fn a_script_is_played_back() {
    let samples = vec![
        SampleWrite { plane: 0, x: 3, y: 2, value: 77 },
        SampleWrite { plane: 2, x: 1, y: 0, value: 5 },
        // Outside the plane.
        SampleWrite { plane: 1, x: 4, y: 0, value: 9 },
    ];
    let mut script = ScriptLayer::new(vec![scripted(BLOCK_8X8, 1, samples)]);
    let mut d = Decoder::new();
    let out = d.decode_frame(&mut script, &frame(&key(8, 8))).expect("a valid frame");
    let f = picture(out);
    let mut luma = vec![0u8; 64];
    luma[2 * 8 + 3] = 77;
    assert_eq!(f.y, PlaneData::U8(luma));
    assert_eq!(f.u, PlaneData::U8(vec![0; 16]));
    let mut chroma = vec![0u8; 16];
    chroma[1] = 5;
    assert_eq!(f.v, PlaneData::U8(chroma));
    assert_eq!(script.next, 1);
    // The script is used up.
    assert_eq!(script.next_info(), Err(TileError::InvalidPartition));
    assert_eq!(
        d.decode_frame(&mut script, &frame(&key(8, 8))),
        Err(DecodeError::Tile(TileError::InvalidPartition))
    );
    assert_eq!(script.next, 1);
}

#[test]
fn a_refused_block_stays_in_the_script() {
    // No block has a size beyond the last.
    let mut script = ScriptLayer::new(vec![scripted(200, 0, Vec::new())]);
    assert_eq!(
        Decoder::new().decode_frame(&mut script, &frame(&key(8, 8))),
        Err(DecodeError::Tile(TileError::InvalidPartition))
    );
    assert_eq!(script.next, 0);
}

#[test]
fn a_failed_frame_leaves_the_stored_pictures() {
    let mut d = Decoder::new();
    decode(&mut d, &mut painter(60), &key(16, 16)).expect("a valid frame");
    for slot in 0..8u8 {
        let show = [0x88 | slot];
        assert_eq!(show[..], show_existing(slot as u32)[..]);
        let before = d.decode_frame(&mut painter(0), &show);
        assert!(before.is_ok());
        let mut p = painter(90);
        p.refusal = Some(TileError::CorruptTile);
        assert_eq!(
            decode(&mut d, &mut p, &key(16, 16)),
            Err(DecodeError::Tile(TileError::CorruptTile))
        );
        assert_eq!(d.decode_frame(&mut painter(0), &show), before);
    }
}
