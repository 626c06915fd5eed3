//! Byte-level readers and small value types.

use path_server::colordata::ColorData;
use path_server::geometry::{half_floor, rem_euclid};
use path_server::mapdata::Land;
use path_server::multidata::Multi;
use path_server::mulreader::{
    mul_read_fixed_str20, mul_read_i16, mul_read_i32, mul_read_i8, mul_read_u16, mul_read_u32,
    mul_read_u64, mul_read_u8,
};
use path_server::staticdata::Static;
use path_server::tiledata::TileData;
use path_server::uop::{partial_read_u32, uop_hash};

#[test]
fn little_endian_readers() {
    let data: Vec<u8> = vec![0x01, 0x02, 0x03, 0x84, 0xFF, 0x00, 0x10, 0x20];
    assert_eq!(mul_read_u8(&data, 0), 0x01);
    assert_eq!(mul_read_i8(&data, 4), -1);
    assert_eq!(mul_read_u16(&data, 0), 0x0201);
    assert_eq!(mul_read_i16(&data, 2), i16::from_le_bytes([0x03, 0x84]));
    assert_eq!(mul_read_u32(&data, 0), 0x8403_0201);
    assert_eq!(mul_read_i32(&data, 0), 0x8403_0201u32 as i32);
    assert_eq!(mul_read_u64(&data, 0), 0x2010_00FF_8403_0201);
    assert_eq!(mul_read_fixed_str20(&vec![7u8; 24], 2), vec![7u8; 20]);
}

#[test]
fn partial_word_pads_with_zeroes() {
    let data: Vec<u8> = vec![0xAA, 0xBB, 0xCC];
    assert_eq!(partial_read_u32(&data, 0), 0x00CC_BBAA);
    assert_eq!(partial_read_u32(&data, 2), 0x0000_00CC);
    assert_eq!(partial_read_u32(&data, 3), 0);
}

#[test]
fn uop_hash_of_empty_input() {
    // no rounds and no final mix leave the seeded state untouched
    let empty: Vec<u8> = Vec::new();
    assert_eq!(uop_hash(&empty), 0xdead_beef_dead_beef);
}

#[test]
fn uop_hash_depends_on_content() {
    let a: Vec<u8> = b"build/map0legacymul/00000000.dat".to_vec();
    let b: Vec<u8> = b"build/map0legacymul/00000001.dat".to_vec();
    assert_ne!(uop_hash(&a), uop_hash(&b));
    assert_eq!(uop_hash(&a), uop_hash(&a));
}

#[test]
fn euclidean_remainder_and_floor_halving() {
    assert_eq!(rem_euclid(-1, 32), 31);
    assert_eq!(rem_euclid(65, 32), 1);
    assert_eq!(rem_euclid(-64, 32), 0);
    assert_eq!(half_floor(-3), -2);
    assert_eq!(half_floor(-4), -2);
    assert_eq!(half_floor(5), 2);
}

#[test]
fn color_table_expands_channels() {
    assert_eq!(ColorData::get_rgb(0x7FFF), (255, 255, 255));
    assert_eq!(ColorData::get_rgb(0), (0, 0, 0));
    // 5-bit red only
    assert_eq!(ColorData::get_rgb(0x7C00), (255, 0, 0));
    let data: Vec<u8> = vec![0xFF, 0x7F, 0x00, 0x00];
    let colors = ColorData::read(&data);
    assert_eq!(colors.get_land_color(0), (255, 255, 255, 255));
}

#[test]
fn land_block_parsing() {
    // one block: header then 64 records of (tile, z)
    let mut data: Vec<u8> = vec![0, 0, 0, 0];
    for i in 0..64u16 {
        data.extend_from_slice(&i.to_le_bytes());
        data.push(5u8);
    }
    let land = Land::read(&data, 1, 1).unwrap();
    let block = land.land_block(0);
    // cell (ox, oy) holds record ox * 8 + oy
    assert_eq!(block.cell(0, 0).land_tile, 0);
    assert_eq!(block.cell(1, 0).land_tile, 8);
    assert_eq!(block.cell(0, 1).land_tile, 1);
    assert_eq!(block.cell(7, 7).z, 5);
    assert!(Land::read(&data, 2, 1).is_none());
}

#[test]
fn static_block_parsing_sorts_by_offsets() {
    // two tiles of one block, deliberately out of order
    let mut data: Vec<u8> = Vec::new();
    for (graphic, x, y, z) in [(2u16, 3u8, 0u8, 0i8), (1u16, 1u8, 1u8, 4i8)] {
        data.extend_from_slice(&graphic.to_le_bytes());
        data.push(x);
        data.push(y);
        data.push(z as u8);
        data.extend_from_slice(&0u16.to_le_bytes());
    }
    let mut idx: Vec<u8> = Vec::new();
    idx.extend_from_slice(&0u32.to_le_bytes());
    idx.extend_from_slice(&14u32.to_le_bytes());
    idx.extend_from_slice(&0u32.to_le_bytes());
    let statics = Static::read(&idx, &data, 1, 1).unwrap();
    let block = statics.statics_block(0);
    assert_eq!(block.len(), 2);
    assert_eq!(block[0].static_tile, 1);
    assert_eq!(block[1].static_tile, 2);
    let run = statics.statics_block_tile(0, 1, 1);
    assert_eq!(run.len(), 1);
    assert_eq!(run[0].static_tile, 1);
    let run2 = statics.statics_block_tile2(0, 3, 0);
    assert_eq!(run2.len(), 1);
    assert_eq!(run2[0].static_tile, 2);
    assert_eq!(statics.statics_block_tile(0, 5, 5).len(), 0);
    // a run reaching past the tile buffer is refused
    let mut bad: Vec<u8> = Vec::new();
    bad.extend_from_slice(&0u32.to_le_bytes());
    bad.extend_from_slice(&70u32.to_le_bytes());
    bad.extend_from_slice(&0u32.to_le_bytes());
    assert!(Static::read(&bad, &data, 1, 1).is_none());
}

#[test]
fn multi_table_version_detection() {
    // one multi with two 12-byte parts
    let mut data: Vec<u8> = Vec::new();
    for (tile, x) in [(1u16, 0i16), (2u16, 1i16)] {
        data.extend_from_slice(&tile.to_le_bytes());
        data.extend_from_slice(&x.to_le_bytes());
        data.extend_from_slice(&0i16.to_le_bytes());
        data.extend_from_slice(&0i16.to_le_bytes());
        data.extend_from_slice(&0u32.to_le_bytes());
    }
    let mut idx: Vec<u8> = Vec::new();
    idx.extend_from_slice(&0u32.to_le_bytes());
    idx.extend_from_slice(&24u32.to_le_bytes());
    idx.extend_from_slice(&0u32.to_le_bytes());
    // a second, absent entry
    idx.extend_from_slice(&0xFFFF_FFFFu32.to_le_bytes());
    idx.extend_from_slice(&0u32.to_le_bytes());
    idx.extend_from_slice(&0u32.to_le_bytes());
    let multi = Multi::read(&idx, &data).unwrap();
    let parts = multi.multi_parts(0);
    assert_eq!(parts.len(), 2);
    assert_eq!(parts[0].static_tile, 1);
    assert_eq!(parts[1].x, 1);
    assert_eq!(multi.multi_parts(1).len(), 0);
    // an index of absent entries alone divides both ways: ambiguous
    let empty_idx: Vec<u8> = [0xFFFF_FFFFu32, 0, 0].iter().flat_map(|v| v.to_le_bytes()).collect();
    assert!(Multi::read(&empty_idx, &data).is_none());
    // a run pointing outside the data buffer is refused
    let mut bad_idx: Vec<u8> = Vec::new();
    bad_idx.extend_from_slice(&0u32.to_le_bytes());
    bad_idx.extend_from_slice(&48u32.to_le_bytes());
    bad_idx.extend_from_slice(&0u32.to_le_bytes());
    assert!(Multi::read(&bad_idx, &data).is_none());
}

#[test]
fn tile_catalog_parsing_classic_layout() {
    // the classic layout is selected by the exact file size
    let mut data: Vec<u8> = vec![0u8; 1_644_544];
    // land entry 0 sits right after the first group header
    data[4] = 0x40;
    // land entry 33: 2 headers and 33 records in front
    let off33 = 26 * 33 + 4 * 2;
    data[off33] = 0x01;
    // static entry 0 follows the whole land half and one group header
    let s0 = 428_032 + 4;
    data[s0] = 0x02;
    data[s0 + 4 + 12] = 9;
    let td = TileData::read(&data).unwrap();
    assert_eq!(td.land_tiles.len(), 16384);
    assert_eq!(td.land_tiles[0].flags, 0x40);
    assert_eq!(td.land_tiles[33].flags, 0x01);
    assert_eq!(td.static_tiles.len(), 32 * ((1_644_544 - 428_032) / 1188));
    assert_eq!(td.static_tiles[0].flags, 0x02);
    assert_eq!(td.static_tiles[0].height, 9);
    // a buffer too short for the land half is refused
    assert!(TileData::read(&vec![0u8; 100]).is_none());
}
