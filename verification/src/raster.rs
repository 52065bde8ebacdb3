//! Rasters: the pixel grids that tiles, bands and the finished mosaic are
//! made of.

use vstd::prelude::*;

use crate::color::Color;

verus! {

/// The color of a raster position that no tile was painted into: black,
/// matching a freshly allocated output image.
pub open spec fn unpainted() -> Color {
    Color { r: 0, g: 0, b: 0 }
}

/// A rectangular grid of colors, stored row-major. Both the band outputs and
/// the final mosaic are rasters; tiles become rasters once decoded.
#[derive(Clone, PartialEq, Eq, Debug)]
pub struct Raster {
    pub width: usize,
    pub height: usize,
    pub pixels: Vec<Color>,
}

impl Raster {
    /// The pixel store holds exactly one color per position.
    pub open spec fn well_formed(self) -> bool {
        self.pixels@.len() == self.width * self.height
    }

    /// The color at column `x` of row `y`.
    pub open spec fn pix(self, x: int, y: int) -> Color {
        self.pixels@[y * self.width + x]
    }

    /// A fresh raster of the given dimensions with every position set to
    /// `fill`.
    pub fn new_filled(width: usize, height: usize, fill: Color) -> (r: Raster)
        requires
            width * height <= usize::MAX,
        ensures
            r.well_formed(),
            r.width == width,
            r.height == height,
            forall|x: int, y: int|
                0 <= x < width && 0 <= y < height ==> r.pix(x, y) == fill,
    {
        let total: usize = width * height;
        let mut pixels: Vec<Color> = Vec::new();
        let mut i: usize = 0;
        while i < total
            invariant
                0 <= i <= total,
                pixels@.len() == i,
                forall|k: int| 0 <= k < i ==> pixels@[k] == fill,
            decreases total - i,
        {
            pixels.push(fill);
            i = i + 1;
        }
        let r = Raster { width, height, pixels };
        proof {
            assert forall|x: int, y: int|
                0 <= x < width && 0 <= y < height implies r.pix(x, y) == fill by {
                lemma_row_major_bounds(x, y, width as int, height as int);
            }
        }
        r
    }

    /// The color at `(x, y)`.
    pub fn get_pixel(&self, x: usize, y: usize) -> (c: Color)
        requires
            self.well_formed(),
            x < self.width,
            y < self.height,
        ensures
            c == self.pix(x as int, y as int),
    {
        proof {
            lemma_row_major_bounds(x as int, y as int, self.width as int, self.height as int);
        }
        let n: usize = self.pixels.len();
        assert(y * self.width + x < n);
        self.pixels[y * self.width + x]
    }

    /// Paints the whole of `src` into this raster with its top-left corner
    /// at `(x0, y0)`; every position outside that rectangle keeps its color.
    pub fn blit(&mut self, src: &Raster, x0: usize, y0: usize)
        requires
            old(self).well_formed(),
            src.well_formed(),
            x0 + src.width <= old(self).width,
            y0 + src.height <= old(self).height,
        ensures
            final(self).well_formed(),
            final(self).width == old(self).width,
            final(self).height == old(self).height,
            forall|dx: int, dy: int|
                0 <= dx < src.width && 0 <= dy < src.height ==> final(self).pix(
                    x0 + dx,
                    y0 + dy,
                ) == src.pix(dx, dy),
            forall|x: int, y: int|
                0 <= x < final(self).width && 0 <= y < final(self).height && !(x0 <= x < x0
                    + src.width && y0 <= y < y0 + src.height) ==> final(self).pix(x, y) == old(
                    self,
                ).pix(x, y),
    {
        let mut dy: usize = 0;
        while dy < src.height
            invariant
                0 <= dy <= src.height,
                self.well_formed(),
                src.well_formed(),
                self.width == old(self).width,
                self.height == old(self).height,
                x0 + src.width <= self.width,
                y0 + src.height <= self.height,
                forall|dx: int, ry: int|
                    0 <= dx < src.width && 0 <= ry < dy ==> self.pix(x0 + dx, y0 + ry) == src.pix(
                        dx,
                        ry,
                    ),
                forall|x: int, y: int|
                    0 <= x < self.width && 0 <= y < self.height && !(x0 <= x < x0 + src.width && y0
                        <= y < y0 + dy) ==> self.pix(x, y) == old(self).pix(x, y),
            decreases src.height - dy,
        {
            let mut dx: usize = 0;
            while dx < src.width
                invariant
                    0 <= dx <= src.width,
                    0 <= dy < src.height,
                    self.well_formed(),
                    src.well_formed(),
                    self.width == old(self).width,
                    self.height == old(self).height,
                    x0 + src.width <= self.width,
                    y0 + src.height <= self.height,
                    forall|rx: int, ry: int|
                        0 <= rx < src.width && 0 <= ry < dy ==> self.pix(x0 + rx, y0 + ry)
                            == src.pix(rx, ry),
                    forall|rx: int|
                        0 <= rx < dx ==> self.pix(x0 + rx, y0 + dy as int) == src.pix(
                            rx,
                            dy as int,
                        ),
                    forall|x: int, y: int|
                        0 <= x < self.width && 0 <= y < self.height && !(x0 <= x < x0 + src.width
                            && y0 <= y < y0 + dy + 1) ==> self.pix(x, y) == old(self).pix(x, y),
                    forall|x: int|
                        x0 + dx <= x < self.width && 0 <= x ==> #[trigger] self.pix(
                            x,
                            y0 + dy as int,
                        ) == old(self).pix(x, y0 + dy as int),
                decreases src.width - dx,
            {
                let c = src.get_pixel(dx, dy);
                self.set_pixel(x0 + dx, y0 + dy, c);
                dx = dx + 1;
            }
            dy = dy + 1;
        }
    }

    /// Sets the color at `(x, y)` and changes nothing else.
    pub fn set_pixel(&mut self, x: usize, y: usize, c: Color)
        requires
            old(self).well_formed(),
            x < old(self).width,
            y < old(self).height,
        ensures
            final(self).well_formed(),
            final(self).width == old(self).width,
            final(self).height == old(self).height,
            final(self).pix(x as int, y as int) == c,
            forall|a: int, b: int|
                0 <= a < final(self).width && 0 <= b < final(self).height && !(a == x && b == y)
                    ==> final(self).pix(a, b) == old(self).pix(a, b),
    {
        proof {
            lemma_row_major_bounds(x as int, y as int, self.width as int, self.height as int);
        }
        let n: usize = self.pixels.len();
        assert(y * self.width + x < n);
        let i: usize = y * self.width + x;
        self.pixels[i] = c;
        proof {
            assert forall|a: int, b: int|
                0 <= a < self.width && 0 <= b < self.height && !(a == x && b == y) implies self.pix(
                a,
                b,
            ) == old(self).pix(a, b) by {
                lemma_row_major_bounds(a, b, self.width as int, self.height as int);
                lemma_row_major_distinct(a, b, x as int, y as int, self.width as int);
            }
        }
    }
}

/// A position inside the raster has a row-major index inside the pixel
/// store.
proof fn lemma_row_major_bounds(x: int, y: int, width: int, height: int)
    requires
        0 <= x < width,
        0 <= y < height,
    ensures
        0 <= y * width + x < width * height,
{
    assert(y * width + x < width * height) by (nonlinear_arith)
        requires
            0 <= x < width,
            0 <= y < height,
    ;
    assert(y * width >= 0) by (nonlinear_arith)
        requires
            y >= 0,
            width >= 0,
    ;
}

/// Distinct positions have distinct row-major indices.
proof fn lemma_row_major_distinct(x1: int, y1: int, x2: int, y2: int, width: int)
    requires
        0 <= x1 < width,
        0 <= x2 < width,
        0 <= y1,
        0 <= y2,
        !(x1 == x2 && y1 == y2),
    ensures
        y1 * width + x1 != y2 * width + x2,
{
    if y1 == y2 {
    } else {
        assert(y1 * width + x1 != y2 * width + x2) by (nonlinear_arith)
            requires
                0 <= x1 < width,
                0 <= x2 < width,
                y1 != y2,
    ;
    }
}

/// Two well-formed rasters of the same dimensions that agree on the color
/// of every position hold identical pixel stores.
pub proof fn lemma_pixelwise_equal(a: Raster, b: Raster)
    requires
        a.well_formed(),
        b.well_formed(),
        a.width == b.width,
        a.height == b.height,
        forall|x: int, y: int|
            0 <= x < a.width && 0 <= y < a.height ==> a.pix(x, y) == b.pix(x, y),
    ensures
        a.pixels@ == b.pixels@,
{
    assert forall|k: int| 0 <= k < a.pixels@.len() implies a.pixels@[k] == b.pixels@[k] by {
        if a.width > 0 {
            let x = k % (a.width as int);
            let y = k / (a.width as int);
            assert(0 <= x < a.width && 0 <= y < a.height && k == y * a.width + x)
                by (nonlinear_arith)
                requires
                    a.width > 0,
                    0 <= k < a.width * a.height,
                    x == k % (a.width as int),
                    y == k / (a.width as int),
            ;
            assert(a.pix(x, y) == b.pix(x, y));
        } else {
            assert(a.width * a.height == 0) by (nonlinear_arith)
                requires
                    a.width == 0,
            ;
        }
    }
    assert(a.pixels@ =~= b.pixels@);
}

} // verus!
