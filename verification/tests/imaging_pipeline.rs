use image::{DynamicImage, ImageBuffer, Rgba};
use mosaic_art::color::Color;
use mosaic_art::imaging::{crop_rect, prepare_tile, tile_color, CropRect};

fn uniform_image(width: u32, height: u32, px: [u8; 4]) -> DynamicImage {
    DynamicImage::ImageRgba8(ImageBuffer::from_pixel(width, height, Rgba(px)))
}

// A tile of one solid color indexes to exactly that color: the resampling
// filter introduces no drift on uniform input.
#[test]
fn uniform_tile_keeps_its_color_exactly() {
    let img = uniform_image(20, 20, [10, 200, 30, 255]);
    assert_eq!(tile_color(&img), Color { r: 10, g: 200, b: 30 });
    let img = uniform_image(7, 13, [255, 0, 0, 255]);
    assert_eq!(tile_color(&img), Color { r: 255, g: 0, b: 0 });
}

#[test]
fn tile_color_is_deterministic() {
    let img = uniform_image(16, 9, [1, 2, 3, 255]);
    assert_eq!(tile_color(&img), tile_color(&img));
}

#[test]
fn crop_rect_takes_largest_centered_square() {
    assert_eq!(crop_rect(100, 60), CropRect { x: 20, size: 60 });
    assert_eq!(crop_rect(60, 100), CropRect { x: 0, size: 60 });
    assert_eq!(crop_rect(50, 50), CropRect { x: 0, size: 50 });
}

// Preparation really crops and resamples: the result is a square of the
// requested render size whatever the input shape was.
#[test]
fn prepare_tile_yields_render_sized_square() {
    let img = uniform_image(100, 60, [5, 6, 7, 255]);
    let prepared = prepare_tile(img, 50);
    assert_eq!(image::GenericImageView::dimensions(&prepared), (50, 50));
    let img = uniform_image(30, 80, [5, 6, 7, 255]);
    let prepared = prepare_tile(img, 50);
    assert_eq!(image::GenericImageView::dimensions(&prepared), (50, 50));
}

// The preparation really cuts the centered square: a tile whose center
// square is one solid color, flanked by different margins, prepares and
// indexes to exactly the center's color.
#[test]
fn prepare_tile_keeps_only_the_centered_square() {
    let img = DynamicImage::ImageRgba8(ImageBuffer::from_fn(300, 100, |x, _y| {
        if (100..200).contains(&x) {
            Rgba([255, 0, 0, 255])
        } else {
            Rgba([0, 0, 0, 255])
        }
    }));
    let prepared = prepare_tile(img, 50);
    assert_eq!(tile_color(&prepared), Color { r: 255, g: 0, b: 0 });
}

// A one-pixel image is its own resample: its representative color is that
// pixel, exactly.
#[test]
fn one_pixel_image_represents_itself() {
    let img = uniform_image(1, 1, [9, 8, 7, 255]);
    assert_eq!(tile_color(&img), Color { r: 9, g: 8, b: 7 });
}

// Resampling is a function of the image alone: preparing two equal images
// gives tiles with the same representative color.
#[test]
fn preparation_is_deterministic() {
    let a = uniform_image(40, 30, [12, 34, 56, 255]);
    let b = uniform_image(40, 30, [12, 34, 56, 255]);
    assert_eq!(
        tile_color(&prepare_tile(a, 50)),
        tile_color(&prepare_tile(b, 50))
    );
}
