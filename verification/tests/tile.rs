//! Tiles and mode info.

use vp9dec::bool_coder::BoolDecoder;
use vp9dec::prob_tables::{BLOCK_4X4, DC_PRED, TX_4X4};
use vp9dec::tile::partition::check_tile_read_bounds;
use vp9dec::tile::{get_tile_offset, split_tiles, MiGrid, MiInfo, TileError};

#[test]
fn tiles_start_at_whole_superblocks() {
    // 30 units are four superblocks; two tiles have two each.
    assert_eq!(get_tile_offset(0, 30, 1), 0);
    assert_eq!(get_tile_offset(1, 30, 1), 16);
    assert_eq!(get_tile_offset(2, 30, 1), 30);
    // Five superblocks in four tiles: one has two.
    let starts: Vec<u32> = (0..=4).map(|k| get_tile_offset(k, 40, 2)).collect();
    assert_eq!(starts, vec![0, 8, 16, 24, 40]);
    // More tiles than superblocks: some are empty.
    let starts: Vec<u32> = (0..=4).map(|k| get_tile_offset(k, 3, 2)).collect();
    assert_eq!(starts, vec![0, 0, 0, 0, 3]);
}

#[test]
fn tile_sizes_stand_before_all_but_the_last_tile() {
    let data = [0u8, 0, 0, 2, 7, 8, 0, 0, 0, 0, 9];
    let tiles = split_tiles(&data, 3).expect("valid sizes");
    assert_eq!(tiles, vec![&[7u8, 8][..], &[][..], &[9u8][..]]);
    assert_eq!(split_tiles(&data, 1).expect("no sizes"), vec![&data[..]]);
    assert_eq!(split_tiles(&[0, 0, 0], 2), Err(TileError::InvalidTileSize));
    assert_eq!(split_tiles(&[0, 0, 0, 2, 7], 2), Err(TileError::InvalidTileSize));
    assert_eq!(split_tiles(&[0xff, 0, 0, 0, 7], 2), Err(TileError::InvalidTileSize));
}

#[test]
fn a_tile_is_read_to_about_its_end() {
    let data = vec![0u8; 200];
    let mut r = BoolDecoder::new(&data).expect("a valid marker");
    assert_eq!(check_tile_read_bounds(&r, &data), Err(TileError::CorruptTile));
    // 1600 bits, 8 of them read at the start: 568 more leave 1024.
    for _ in 0..567 {
        r.read_bool(128);
    }
    assert_eq!(check_tile_read_bounds(&r, &data), Err(TileError::CorruptTile));
    r.read_bool(128);
    assert_eq!(check_tile_read_bounds(&r, &data), Ok(()));
    for _ in 0..1024 + 128 {
        r.read_bool(128);
    }
    assert_eq!(check_tile_read_bounds(&r, &data), Ok(()));
    r.read_bool(128);
    assert_eq!(check_tile_read_bounds(&r, &data), Err(TileError::CorruptTile));
}

#[test]
fn grids_keep_what_is_set() {
    let mut g = MiGrid::new(4, 3);
    assert_eq!((g.cols(), g.rows()), (4, 3));
    let info = *g.get(2, 3);
    assert_eq!((info.tx_size, info.mi_size, info.y_mode), (TX_4X4, BLOCK_4X4, DC_PRED));
    assert_eq!(info, MiInfo::default());
    let mut other = info;
    other.segment_id = 5;
    g.set(1, 2, other);
    for row in 0..3 {
        for col in 0..4 {
            let expected = if (row, col) == (1, 2) { 5 } else { 0 };
            assert_eq!(g.get(row, col).segment_id, expected);
        }
    }
}

#[test]
fn strips_of_a_grid_keep_absolute_columns() {
    let mut g = MiGrid::new_strip(2, 2, 6);
    let mut info = MiInfo::default();
    info.skip = true;
    g.set(1, 7, info);
    assert!(g.get(1, 7).skip);
    assert!(!g.get(1, 6).skip && !g.get(0, 7).skip);
}
