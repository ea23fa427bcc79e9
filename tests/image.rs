use smw_gfx::raster::{ansi_colors, fits_image, image_dimensions, palette_to_rgb, tiles_to_image, RasterImage};
use smw_gfx::tile::Tile;

fn pixel(img: &RasterImage, x: usize, y: usize) -> (u8, u8, u8, u8) {
    let k = (y * img.width as usize + x) * 4;
    (img.data[k], img.data[k + 1], img.data[k + 2], img.data[k + 3])
}

#[test]
fn seventeen_tiles_make_two_rows() {
    let tiles: Vec<Tile> = vec![vec![0u8; 64]; 17];
    assert_eq!(image_dimensions(17, 1), (128, 16));
    let img = tiles_to_image(&tiles, 1);
    assert_eq!((img.width, img.height), (128, 16));
    assert_eq!(img.data.len(), 4 * 128 * 16);
}

#[test]
fn image_dimensions_by_count_and_scale() {
    assert_eq!(image_dimensions(0, 4), (512, 0));
    assert_eq!(image_dimensions(1, 4), (512, 32));
    assert_eq!(image_dimensions(16, 2), (256, 16));
    assert_eq!(image_dimensions(33, 3), (384, 72));
}

#[test]
fn transparency_of_palette_indices() {
    for p in 0..=255u8 {
        let alpha = palette_to_rgb(p).3;
        if p == 0 || p == 8 {
            assert_eq!(alpha, 0);
        } else {
            assert_eq!(alpha, 255);
        }
    }
}

#[test]
fn palette_colors() {
    assert_eq!(palette_to_rgb(1), (255, 255, 255, 255));
    assert_eq!(palette_to_rgb(2), (0, 0, 0, 255));
    assert_eq!(palette_to_rgb(5), (127, 127, 127, 255));
    assert_eq!(palette_to_rgb(0xf), (212, 212, 212, 255));
    assert_eq!(palette_to_rgb(0xb), (42, 42, 42, 255));
    assert_eq!(palette_to_rgb(16), (255, 0, 0, 255));
}

#[test]
fn composed_pixels_are_scaled_blocks() {
    let mut first: Tile = vec![0u8; 64];
    first[0] = 1;
    first[9] = 3;
    let mut second: Tile = vec![0u8; 64];
    second[63] = 4;
    let mut seventeenth: Tile = vec![0u8; 64];
    seventeenth[0] = 2;
    let mut tiles: Vec<Tile> = vec![first, second];
    tiles.extend(vec![vec![0u8; 64]; 14]);
    tiles.push(seventeenth);
    let img = tiles_to_image(&tiles, 2);
    assert_eq!((img.width, img.height), (256, 32));
    for (x, y) in [(0, 0), (1, 0), (0, 1), (1, 1)] {
        assert_eq!(pixel(&img, x, y), (255, 255, 255, 255));
    }
    assert_eq!(pixel(&img, 2, 0), (0, 0, 0, 0));
    assert_eq!(pixel(&img, 2, 2), (42, 42, 42, 255));
    assert_eq!(pixel(&img, 3, 3), (42, 42, 42, 255));
    assert_eq!(pixel(&img, 16 + 14, 14), (85, 85, 85, 255));
    assert_eq!(pixel(&img, 16 + 15, 15), (85, 85, 85, 255));
    assert_eq!(pixel(&img, 0, 16), (0, 0, 0, 255));
    assert_eq!(pixel(&img, 1, 17), (0, 0, 0, 255));
    assert_eq!(pixel(&img, 16, 16), (0, 0, 0, 0));
    assert_eq!(pixel(&img, 255, 31), (0, 0, 0, 0));
}

#[test]
fn preview_colors() {
    assert_eq!(ansi_colors(0), Some((18, None)));
    assert_eq!(ansi_colors(1), Some((255, Some(232))));
    assert_eq!(ansi_colors(5), Some((243, None)));
    assert_eq!(ansi_colors(7), Some((252, None)));
    assert_eq!(ansi_colors(8), None);
}

#[test]
fn image_size_limits() {
    assert!(fits_image(17, 1));
    assert!(fits_image(0, 4));
    assert!(fits_image(usize::MAX, 0));
    assert!(!fits_image(1, u32::MAX));
    assert!(!fits_image(usize::MAX, 1));
    assert!(fits_image(16, 33_554_431));
    assert!(!fits_image(16, 33_554_432));
}
