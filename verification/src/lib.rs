//! A verified VP9 video decoder.
//!
//! A stream goes through these stages:
//!
//! - [`ivf`], [`webm`] and [`superframe`] take a container apart into frames.
//! - [`bit_reader`], [`bool_coder`], [`header`] and [`compressed_header`] read
//!   the headers of a frame, the second of which updates probabilities.
//! - [`tile`] walks over the tiles, superblocks, partitions and blocks.
//! - [`predict`] and [`transform`] reconstruct blocks, from the motion vectors
//!   of [`mv`] among others.
//! - [`loop_filter`] smooths the edges between blocks.
//! - [`counts`] adapts the probabilities to what was read.
//! - [`dpb`] keeps reference frames, and [`decoder`] ties all of it together.
//!
//! [`md5`] and [`png`] are for looking at the result, [`bench_timing`] for
//! measuring, and [`test_support`] for building streams by hand.
//!
//! Each function states in its contract what it computes, over the spec
//! functions of its module. The public lemmas state what holds across
//! functions.

pub mod bench_timing;
pub mod bit_reader;
pub mod bool_coder;
pub mod common;
pub mod compressed_header;
pub mod counts;
pub mod decoder;
pub mod dpb;
pub mod framebuffer;
pub mod header;
pub mod ivf;
pub mod loop_filter;
pub mod md5;
pub mod mv;
pub mod mv_ref_tables;
pub mod png;
pub mod predict;
pub mod prob_tables;
pub mod subpel;
pub mod superframe;
pub mod test_support;
pub mod tile;
pub mod transform;
pub mod webm;

pub use decoder::{DecodeError, DecodedFrame, Decoder, Frame, FrameDecodeInfo, PlaneData};
