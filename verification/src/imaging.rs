//! The maintenance pipeline's image work: the crop geometry, and the image
//! crate's cropping and resampling behind trusted wrappers.

use vstd::prelude::*;

use crate::color::Color;

verus! {

/// The image crate's dynamic image, declared so that tile images can flow
/// through the maintenance pipeline's verified code. Verus sees nothing
/// inside a value of it.
#[verifier::external_type_specification]
#[verifier::external_body]
pub struct ExDynamicImage(image::DynamicImage);

/// The width and height of an image: what its stored dimensions read back
/// as. A function of the image value alone.
pub uninterp spec fn dims_of(img: image::DynamicImage) -> (u32, u32);

/// The pixel at `(x, y)` of the image resampled to `n` by `n` with the
/// triangle filter, alpha dropped: what the resampler computes there. It
/// depends on the image value and the size alone — no chance, time or
/// machine state — so resampling the same image twice gives the same
/// result.
pub uninterp spec fn resampled_pixel_of(img: image::DynamicImage, n: u32, x: u32, y: u32) -> Color;

/// The representative color of an image: the single pixel of the image
/// resampled down to one by one. Indexing the same tile twice yields the
/// same color.
pub open spec fn representative_of(img: image::DynamicImage) -> Color {
    resampled_pixel_of(img, 1, 0, 0)
}

/// The color of the image's pixel at `(x, y)`, alpha dropped: what
/// GenericImageView::get_pixel reads there. A function of the image value
/// alone.
pub uninterp spec fn pixel_of(img: image::DynamicImage, x: u32, y: u32) -> Color;

/// A crop rectangle clamped to an image of the given dimensions, as the
/// image crate clamps it: the corner is moved inside the image and the
/// extent cut down to what remains; the result is `(x, y, w, h)`.
pub open spec fn clamped_rect(dims: (u32, u32), x: u32, y: u32, w: u32, h: u32) -> (
    u32,
    u32,
    u32,
    u32,
) {
    let cx = if x <= dims.0 {
        x
    } else {
        dims.0
    };
    let cy = if y <= dims.1 {
        y
    } else {
        dims.1
    };
    let cw = if w <= dims.0 - cx {
        w
    } else {
        (dims.0 - cx) as u32
    };
    let ch = if h <= dims.1 - cy {
        h
    } else {
        (dims.1 - cy) as u32
    };
    (cx, cy, cw, ch)
}

/// Relies on image's GenericImageView::dimensions: returns the image's
/// width and height.
#[verifier::external_body]
fn image_dims(img: &image::DynamicImage) -> (d: (u32, u32))
    ensures
        d == dims_of(*img),
{
    image::GenericImageView::dimensions(img)
}

/// Relies on DynamicImage::crop_imm: returns the cut-out of the image
/// delimited by the given rectangle, which the crate first clamps to the
/// image's bounds; the cut-out's pixels are the image's pixels of that
/// window, copied unchanged.
#[verifier::external_body]
fn crop_image(img: &image::DynamicImage, x: u32, y: u32, w: u32, h: u32) -> (r:
    image::DynamicImage)
    ensures
        dims_of(r) == (
            clamped_rect(dims_of(*img), x, y, w, h).2,
            clamped_rect(dims_of(*img), x, y, w, h).3,
        ),
        forall|i: u32, j: u32|
            i < clamped_rect(dims_of(*img), x, y, w, h).2 && j < clamped_rect(
                dims_of(*img),
                x,
                y,
                w,
                h,
            ).3 ==> #[trigger] pixel_of(r, i, j) == pixel_of(
                *img,
                (clamped_rect(dims_of(*img), x, y, w, h).0 + i) as u32,
                (clamped_rect(dims_of(*img), x, y, w, h).1 + j) as u32,
            ),
{
    img.crop_imm(x, y, w, h)
}

/// Relies on DynamicImage::resize_exact: resamples the image to exactly
/// `n` by `n` pixels with the triangle filter, not keeping the aspect
/// ratio. The result always has the requested dimensions, and its pixels
/// are the resample of the input — a function of the image value and the
/// size alone.
#[verifier::external_body]
fn resize_image(img: &image::DynamicImage, n: u32) -> (r: image::DynamicImage)
    ensures
        dims_of(r) == (n, n),
        forall|x: u32, y: u32|
            x < n && y < n ==> #[trigger] pixel_of(r, x, y) == resampled_pixel_of(*img, n, x, y),
{
    img.resize_exact(n, n, image::imageops::FilterType::Triangle)
}

/// Relies on DynamicImage::resize_exact, whose result has exactly the
/// requested one-by-one dimensions, and on GenericImageView::get_pixel to
/// read that single pixel; alpha is dropped. This is the resampling that
/// `representative_of` is defined over. Resampling an image that is
/// already one-by-one takes the crate's copy branch, so the representative
/// of a one-pixel image is that pixel itself.
#[verifier::external_body]
fn shrink_to_unit_color(img: &image::DynamicImage) -> (c: Color)
    ensures
        c == representative_of(*img),
        dims_of(*img) == (1u32, 1u32) ==> c == pixel_of(*img, 0, 0),
{
    let unit = img.resize_exact(1, 1, image::imageops::FilterType::Triangle);
    let p = image::GenericImageView::get_pixel(&unit, 0, 0);
    Color { r: p.0[0], g: p.0[1], b: p.0[2] }
}

/// The square the maintenance crop keeps: side length the smaller image
/// dimension, horizontally centered, flush with the top edge.
#[derive(Clone, Copy, PartialEq, Eq, Structural, Debug)]
pub struct CropRect {
    pub x: u32,
    pub size: u32,
}

/// The side length of the crop square for an image of the given
/// dimensions: the smaller of the two.
pub open spec fn crop_side(dims: (u32, u32)) -> u32 {
    if dims.0 <= dims.1 {
        dims.0
    } else {
        dims.1
    }
}

/// The left edge of the crop square: horizontally centered.
pub open spec fn crop_left(dims: (u32, u32)) -> u32 {
    (dims.0 / 2 - crop_side(dims) / 2) as u32
}

/// Computes the crop rectangle for an image of the given dimensions: the
/// largest centered square that fits, anchored to the top edge, and lying
/// wholly inside the image.
pub fn crop_rect(width: u32, height: u32) -> (r: CropRect)
    ensures
        r.size == crop_side((width, height)),
        r.size <= height,
        r.x == crop_left((width, height)),
        r.x + r.size <= width,
{
    let size = if width <= height {
        width
    } else {
        height
    };
    let x = width / 2 - size / 2;
    assert(width as int / 2 - size as int / 2 + size <= width) by (nonlinear_arith)
        requires
            0 <= size <= width,
    ;
    CropRect { x, size }
}

/// TileIndexer's per-tile derivation: the representative color of one tile
/// image, exactly the color of the tile resampled to one pixel.
pub fn tile_color(img: &image::DynamicImage) -> (c: Color)
    ensures
        c == representative_of(*img),
{
    shrink_to_unit_color(img)
}

/// The maintenance preparation of one raw tile image: crops it to the
/// largest centered top-anchored square — which lies inside the image, so
/// the crate's clamping changes nothing — and resamples that square to the
/// tile render size. The result is a square of exactly that size whose
/// pixels are the resample of a square image holding exactly the centered
/// crop window of the input.
pub fn prepare_tile(img: image::DynamicImage, ts: u32) -> (r: image::DynamicImage)
    ensures
        dims_of(r) == (ts, ts),
        exists|mid: image::DynamicImage|
            #![trigger dims_of(mid)]
            (dims_of(mid) == (crop_side(dims_of(img)), crop_side(dims_of(img))) && (forall|
                i: u32,
                j: u32,
            |
                i < crop_side(dims_of(img)) && j < crop_side(dims_of(img))
                    ==> #[trigger] pixel_of(mid, i, j) == pixel_of(
                    img,
                    (crop_left(dims_of(img)) + i) as u32,
                    j,
                )) && (forall|x: u32, y: u32|
                x < ts && y < ts ==> #[trigger] pixel_of(r, x, y) == resampled_pixel_of(
                    mid,
                    ts,
                    x,
                    y,
                ))),
{
    let (width, height) = image_dims(&img);
    let rect = crop_rect(width, height);
    let cropped = crop_image(&img, rect.x, 0, rect.size, rect.size);
    assert(dims_of(cropped) == (rect.size, rect.size));
    let out = resize_image(&cropped, ts);
    proof {
        assert(forall|i: u32, j: u32|
            i < crop_side(dims_of(img)) && j < crop_side(dims_of(img))
                ==> #[trigger] pixel_of(cropped, i, j) == pixel_of(
                img,
                (crop_left(dims_of(img)) + i) as u32,
                j,
            ));
    }
    out
}

} // verus!
