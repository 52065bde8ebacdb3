use mosaic_art::color::Color;
use mosaic_art::index::build_index;
use mosaic_art::mosaic::{band_rows, compose_band, reassemble, BandOutput, TILE_SIZE};
use mosaic_art::raster::Raster;

fn rgb(r: u8, g: u8, b: u8) -> Color {
    Color { r, g, b }
}

fn uniform_tile(c: Color) -> Raster {
    Raster::new_filled(TILE_SIZE, TILE_SIZE, c)
}

#[test]
fn raster_paints_blocks_at_offsets() {
    let mut out = Raster::new_filled(4, 4, rgb(0, 0, 0));
    let block = Raster::new_filled(2, 2, rgb(9, 9, 9));
    out.blit(&block, 2, 1);
    assert_eq!(out.get_pixel(2, 1), rgb(9, 9, 9));
    assert_eq!(out.get_pixel(3, 2), rgb(9, 9, 9));
    assert_eq!(out.get_pixel(1, 1), rgb(0, 0, 0));
    assert_eq!(out.get_pixel(2, 3), rgb(0, 0, 0));
}

#[test]
fn band_rows_split_matches_midpoint() {
    assert_eq!(band_rows(10, 2, 0), (0, 5));
    assert_eq!(band_rows(10, 2, 1), (5, 5));
    assert_eq!(band_rows(9, 3, 2), (6, 3));
}

// The end-to-end scenario: four uniform tiles, a two-by-two target holding
// exactly their colors, and the expected mosaic of matching blocks.
#[test]
fn four_tiles_compose_into_matching_blocks() {
    let red = rgb(255, 0, 0);
    let green = rgb(0, 255, 0);
    let blue = rgb(0, 0, 255);
    let white = rgb(255, 255, 255);
    let index = build_index(&vec![Some(red), Some(green), Some(blue), Some(white)]);
    let tiles = vec![
        Some(uniform_tile(red)),
        Some(uniform_tile(green)),
        Some(uniform_tile(blue)),
        Some(uniform_tile(white)),
    ];
    let mut target = Raster::new_filled(2, 2, red);
    target.set_pixel(1, 0, green);
    target.set_pixel(0, 1, blue);
    target.set_pixel(1, 1, white);

    let out = compose_band(&target, &index, &tiles, 0, 2, TILE_SIZE);
    assert_eq!(out.width, 2 * TILE_SIZE);
    assert_eq!(out.height, 2 * TILE_SIZE);
    assert_eq!(out.get_pixel(0, 0), red);
    assert_eq!(out.get_pixel(TILE_SIZE - 1, TILE_SIZE - 1), red);
    assert_eq!(out.get_pixel(TILE_SIZE, 0), green);
    assert_eq!(out.get_pixel(2 * TILE_SIZE - 1, TILE_SIZE - 1), green);
    assert_eq!(out.get_pixel(0, TILE_SIZE), blue);
    assert_eq!(out.get_pixel(TILE_SIZE - 1, 2 * TILE_SIZE - 1), blue);
    assert_eq!(out.get_pixel(TILE_SIZE, TILE_SIZE), white);
    assert_eq!(out.get_pixel(2 * TILE_SIZE - 1, 2 * TILE_SIZE - 1), white);
}

// Two bands composed independently and reassembled out of completion order
// equal the single-band composition bit for bit.
#[test]
fn bands_reassemble_to_the_whole() {
    let red = rgb(255, 0, 0);
    let green = rgb(0, 255, 0);
    let blue = rgb(0, 0, 255);
    let white = rgb(255, 255, 255);
    let index = build_index(&vec![Some(red), Some(green), Some(blue), Some(white)]);
    let tiles = vec![
        Some(uniform_tile(red)),
        Some(uniform_tile(green)),
        Some(uniform_tile(blue)),
        Some(uniform_tile(white)),
    ];
    let mut target = Raster::new_filled(2, 2, red);
    target.set_pixel(1, 0, green);
    target.set_pixel(0, 1, blue);
    target.set_pixel(1, 1, white);

    let whole = compose_band(&target, &index, &tiles, 0, 2, TILE_SIZE);
    let top = compose_band(&target, &index, &tiles, 0, 1, TILE_SIZE);
    let bottom = compose_band(&target, &index, &tiles, 1, 1, TILE_SIZE);
    // hand the bands over in the reverse of their positions
    let bands = vec![
        BandOutput { band: 1, raster: bottom },
        BandOutput { band: 0, raster: top },
    ];
    let rebuilt = reassemble(&bands, 2, 2 * TILE_SIZE, TILE_SIZE).expect("complete band set");
    assert_eq!(rebuilt.width, whole.width);
    assert_eq!(rebuilt.height, whole.height);
    assert_eq!(rebuilt.pixels, whole.pixels);
}

#[test]
fn reassemble_rejects_incomplete_band_sets() {
    let band = Raster::new_filled(10, 5, rgb(0, 0, 0));
    // a band is missing
    let one = vec![BandOutput { band: 0, raster: band.clone() }];
    assert!(reassemble(&one, 2, 10, 5).is_err());
    // the same band twice
    let twice = vec![
        BandOutput { band: 1, raster: band.clone() },
        BandOutput { band: 1, raster: band.clone() },
    ];
    assert!(reassemble(&twice, 2, 10, 5).is_err());
    // a band position outside the run
    let stray = vec![
        BandOutput { band: 0, raster: band.clone() },
        BandOutput { band: 2, raster: band.clone() },
    ];
    assert!(reassemble(&stray, 2, 10, 5).is_err());
    // a band of the wrong shape
    let misshapen = vec![
        BandOutput { band: 0, raster: band.clone() },
        BandOutput { band: 1, raster: Raster::new_filled(10, 4, rgb(0, 0, 0)) },
    ];
    assert!(reassemble(&misshapen, 2, 10, 5).is_err());
}

// A matched tile that cannot be loaded leaves its cell unpainted instead of
// failing the band.
#[test]
fn missing_tile_leaves_cell_unpainted() {
    let red = rgb(255, 0, 0);
    let index = build_index(&vec![Some(red)]);
    let tiles: Vec<Option<Raster>> = vec![None];
    let target = Raster::new_filled(1, 1, red);
    let out = compose_band(&target, &index, &tiles, 0, 1, 4);
    assert_eq!(out.get_pixel(0, 0), rgb(0, 0, 0));
    assert_eq!(out.get_pixel(3, 3), rgb(0, 0, 0));
}
