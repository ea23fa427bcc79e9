use smw_gfx::tile::{bin_to_tiles, chunk_to_tile, tile_to_file_format, EncodeError, Tile, TileExt, TilesExt};
use smw_gfx::Bpp;

const FORMATS: [Bpp; 4] = [Bpp::_1bpp, Bpp::_2bpp, Bpp::_3bpp, Bpp::_4bpp];

fn sample_bytes(len: usize, seed: u32) -> Vec<u8> {
    let mut state = seed;
    let mut out = Vec::with_capacity(len);
    for _ in 0..len {
        state = state.wrapping_mul(1_103_515_245).wrapping_add(12_345);
        out.push((state >> 16) as u8);
    }
    out
}

fn round_trip(format: Bpp, seed: u32) {
    let in_bin = sample_bytes(format.bytes_per_8x8() * 20, seed);
    let tiles = bin_to_tiles(&in_bin, format);
    assert_eq!(tiles.len(), 20);
    let out_bin = tiles.to_file(format).unwrap();
    assert_eq!(in_bin, out_bin);
}

#[test]
fn round_trip_1bpp() {
    round_trip(Bpp::_1bpp, 1);
}

#[test]
fn round_trip_2bpp() {
    round_trip(Bpp::_2bpp, 2);
}

#[test]
fn round_trip_3bpp() {
    round_trip(Bpp::_3bpp, 3);
}

#[test]
fn round_trip_4bpp() {
    round_trip(Bpp::_4bpp, 4);
}

#[test]
fn round_trip_all_byte_values() {
    for format in FORMATS {
        let in_bin: Vec<u8> = (0..=255u8).cycle().take(format.bytes_per_8x8() * 16).collect();
        let tiles = bin_to_tiles(&in_bin, format);
        assert_eq!(tiles.to_file(format).unwrap(), in_bin);
    }
}

#[test]
fn decode_one_bpp_first_row() {
    let chunk = [0xFF, 0, 0, 0, 0, 0, 0, 0];
    let tile = chunk_to_tile(&chunk, Bpp::_1bpp);
    let mut expected = vec![1u8; 8];
    expected.extend(vec![0u8; 56]);
    assert_eq!(tile, expected);
}

#[test]
fn four_bpp_zero_chunk_round_trip() {
    let chunk = vec![0u8; 32];
    let tile = chunk_to_tile(&chunk, Bpp::_4bpp);
    assert_eq!(tile, vec![0u8; 64]);
    assert_eq!(tile_to_file_format(&tile, Bpp::_4bpp), Ok(vec![0u8; 32]));
}

#[test]
fn decode_always_gives_64_indices() {
    for format in FORMATS {
        for len in [0usize, 1, 7, 8, 16, 24, 32, 40] {
            let chunk = sample_bytes(len, len as u32 + 7);
            assert_eq!(chunk_to_tile(&chunk, format).len(), 64);
        }
    }
}

#[test]
fn decoded_indices_stay_in_range() {
    for format in FORMATS {
        let chunk = vec![0xFFu8; 32];
        let tile = chunk_to_tile(&chunk, format);
        let max = format.max_palette_index();
        assert!(tile.iter().all(|&p| p == max));
        let chunk = sample_bytes(32, 99);
        let tile = chunk_to_tile(&chunk, format);
        assert!(tile.iter().all(|&p| p <= max));
    }
}

#[test]
fn decode_two_bpp_weights() {
    let mut chunk = vec![0u8; 16];
    chunk[0] = 0b1000_0000;
    chunk[1] = 0b1100_0000;
    let tile = chunk_to_tile(&chunk, Bpp::_2bpp);
    assert_eq!(&tile[0..8], &[3, 2, 0, 0, 0, 0, 0, 0]);
    assert!(tile[8..].iter().all(|&p| p == 0));
}

#[test]
fn decode_three_bpp_third_plane() {
    let mut chunk = vec![0u8; 24];
    chunk[16] = 0b1000_0000;
    chunk[23] = 0b0000_0001;
    let tile = chunk_to_tile(&chunk, Bpp::_3bpp);
    assert_eq!(tile[0], 4);
    assert_eq!(tile[63], 4);
    assert_eq!(tile.iter().filter(|&&p| p != 0).count(), 2);
}

#[test]
fn decode_four_bpp_planes() {
    let mut chunk = vec![0u8; 32];
    chunk[17] = 0b0000_0001;
    chunk[18] = 0b1000_0000;
    chunk[30] = 0b0100_0000;
    let tile = chunk_to_tile(&chunk, Bpp::_4bpp);
    assert_eq!(tile[7], 8);
    assert_eq!(tile[8], 4);
    assert_eq!(tile[8 * 7 + 1], 4);
    assert_eq!(tile.iter().filter(|&&p| p != 0).count(), 3);
}

#[test]
fn encode_places_planes_at_their_offsets() {
    let mut tile: Tile = vec![0u8; 64];
    tile[0] = 15;
    tile[63] = 5;
    let bytes = tile_to_file_format(&tile, Bpp::_4bpp).unwrap();
    let mut expected = vec![0u8; 32];
    expected[0] = 0x80;
    expected[1] = 0x80;
    expected[16] = 0x80;
    expected[17] = 0x80;
    expected[14] = 0x01;
    expected[30] = 0x01;
    assert_eq!(bytes, expected);
    let mut tile3: Tile = vec![0u8; 64];
    tile3[8 * 2] = 4;
    let bytes3 = tile_to_file_format(&tile3, Bpp::_3bpp).unwrap();
    let mut expected3 = vec![0u8; 24];
    expected3[18] = 0x80;
    assert_eq!(bytes3, expected3);
}

#[test]
fn encode_rejects_out_of_range_index() {
    let mut tile: Tile = vec![0u8; 64];
    tile[10] = 2;
    assert_eq!(tile_to_file_format(&tile, Bpp::_1bpp), Err(EncodeError::PaletteIndexOutOfRange));
    assert!(tile_to_file_format(&tile, Bpp::_2bpp).is_ok());
    tile[10] = 16;
    assert_eq!(tile_to_file_format(&tile, Bpp::_4bpp), Err(EncodeError::PaletteIndexOutOfRange));
    tile[10] = 8;
    assert_eq!(tile_to_file_format(&tile, Bpp::_3bpp), Err(EncodeError::PaletteIndexOutOfRange));
}

#[test]
fn to_file_rejects_any_bad_tile() {
    let good: Tile = vec![1u8; 64];
    let mut bad: Tile = vec![0u8; 64];
    bad[63] = 4;
    let tiles = vec![good.clone(), bad];
    assert_eq!(tiles.to_file(Bpp::_2bpp), Err(EncodeError::PaletteIndexOutOfRange));
    let tiles = vec![good];
    assert_eq!(tiles.to_file(Bpp::_1bpp), Ok(vec![0xFFu8; 8]));
}

#[test]
fn short_last_chunk_is_zero_padded() {
    let bin: Vec<u8> = vec![0xFF; 10];
    let tiles = bin_to_tiles(&bin, Bpp::_1bpp);
    assert_eq!(tiles.len(), 2);
    assert!(tiles[0].iter().all(|&p| p == 1));
    assert!(tiles[1][0..16].iter().all(|&p| p == 1));
    assert!(tiles[1][16..].iter().all(|&p| p == 0));
}

#[test]
fn empty_input_has_no_tiles() {
    let tiles = bin_to_tiles(&Vec::new(), Bpp::_4bpp);
    assert!(tiles.is_empty());
    assert_eq!(tiles.to_file(Bpp::_4bpp), Ok(Vec::new()));
}

#[test]
fn tile_get_and_set() {
    let mut tile: Tile = vec![0u8; 64];
    tile.set(3, 5, 9);
    assert_eq!(tile[5 * 8 + 3], 9);
    assert_eq!(tile.get(3, 5), 9);
    assert_eq!(tile.get(5, 3), 0);
}
