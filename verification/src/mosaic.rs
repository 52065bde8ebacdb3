//! The compositor and the band scheduler's verified halves: composing one
//! band of the mosaic, splitting the grid into bands, and reassembling band
//! outputs in band order (MosaicCompositor and RowPartitioner).

use vstd::prelude::*;

use crate::color::Color;
use crate::index::{matched_tile, ColorIndex, IndexEntry};
use crate::raster::{lemma_pixelwise_equal, unpainted, Raster};

verus! {

/// The tile render size used throughout the pipeline: prepared tiles are
/// squares of this side length, and each grid cell becomes one such square
/// block of the output raster.
pub const TILE_SIZE: usize = 50;

/// The decoded tile rasters, positioned by tile identifier; a tile that
/// failed to load is absent.
pub open spec fn usable_tile(tiles: Seq<Option<Raster>>, id: int, ts: int) -> Option<Raster> {
    if 0 <= id < tiles.len() && (tiles[id] matches Some(t) && t.well_formed() && t.width == ts
        && t.height == ts) {
        tiles[id]
    } else {
        None
    }
}

/// Every loaded tile raster is well formed.
pub open spec fn tiles_well_formed(tiles: Seq<Option<Raster>>) -> bool {
    forall|k: int|
        0 <= k < tiles.len() ==> (#[trigger] tiles[k] matches Some(t) ==> t.well_formed())
}

/// The color of the finished mosaic at pixel `(px, py)`. The pixel lies in
/// the grid cell `(px / ts, py / ts)`; that cell samples the target image's
/// pixel at the same grid coordinate, matches the sample against the color
/// index, and shows the matched tile's pixel at the cell-relative offset.
/// A cell whose matched tile is missing or misshapen stays unpainted.
pub open spec fn mosaic_pixel(
    target: Raster,
    entries: Seq<IndexEntry>,
    tiles: Seq<Option<Raster>>,
    ts: int,
    px: int,
    py: int,
) -> Color
    recommends
        entries.len() > 0,
        ts > 0,
{
    let sample = target.pix(px / ts, py / ts);
    let id = matched_tile(entries, sample)->Some_0;
    match usable_tile(tiles, id as int, ts) {
        Some(t) => t.pix(px % ts, py % ts),
        None => unpainted(),
    }
}

/// A pixel coordinate inside the block of cell `c` decomposes into the cell
/// number and the offset inside the block.
proof fn lemma_cell_decompose(p: int, c: int, ts: int)
    requires
        ts > 0,
        c * ts <= p < (c + 1) * ts,
    ensures
        p / ts == c,
        p % ts == p - c * ts,
{
    assert(p == c * ts + (p - c * ts) && 0 <= p - c * ts < ts) by (nonlinear_arith)
        requires
            ts > 0,
            c * ts <= p < (c + 1) * ts,
    ;
    vstd::arithmetic::div_mod::lemma_fundamental_div_mod_converse(p, ts, c, p - c * ts);
}

/// MosaicCompositor, for one band: walks the cells of rows `row_start` up
/// to `row_start + row_count` of the target's grid, matches each cell's
/// sample pixel against the index, and paints the matched tile into the
/// band raster at the cell's block offset. Cells whose tile is unusable are
/// left unpainted; an empty index is a configuration error that callers
/// rule out before any raster is allocated.
///
/// Every pixel of the band raster equals the finished mosaic's pixel at the
/// same column, `row_start * ts` rows further down.
pub fn compose_band(
    target: &Raster,
    index: &ColorIndex,
    tiles: &Vec<Option<Raster>>,
    row_start: usize,
    row_count: usize,
    ts: usize,
) -> (out: Raster)
    requires
        target.well_formed(),
        index@.len() > 0,
        ts >= 1,
        row_start + row_count <= target.height,
        target.width * ts <= usize::MAX,
        row_count * ts <= usize::MAX,
        (target.width * ts) * (row_count * ts) <= usize::MAX,
        tiles_well_formed(tiles@),
    ensures
        out.well_formed(),
        out.width == target.width * ts,
        out.height == row_count * ts,
        forall|px: int, py: int|
            0 <= px < out.width && 0 <= py < out.height ==> out.pix(px, py) == mosaic_pixel(
                *target,
                index@,
                tiles@,
                ts as int,
                px,
                row_start * ts + py,
            ),
{
    let out_w: usize = target.width * ts;
    let out_h: usize = row_count * ts;
    let mut out = Raster::new_filled(out_w, out_h, Color { r: 0, g: 0, b: 0 });
    let mut y: usize = 0;
    while y < row_count
        invariant
            0 <= y <= row_count,
            target.well_formed(),
            index@.len() > 0,
            ts >= 1,
            row_start + row_count <= target.height,
            tiles_well_formed(tiles@),
            out.well_formed(),
            out.width == out_w,
            out.height == out_h,
            out_w == target.width * ts,
            out_h == row_count * ts,
            forall|px: int, py: int|
                0 <= px < out_w && 0 <= py < y * ts ==> out.pix(px, py) == mosaic_pixel(
                    *target,
                    index@,
                    tiles@,
                    ts as int,
                    px,
                    row_start * ts + py,
                ),
            forall|px: int, py: int|
                0 <= px < out_w && y * ts <= py < out_h ==> out.pix(px, py) == unpainted(),
        decreases row_count - y,
    {
        proof {
            assert((y + 1) * ts == y * ts + ts && y * ts >= 0 && (y + 1) * ts <= out_h)
                by (nonlinear_arith)
                requires
                    0 <= y < row_count,
                    ts >= 1,
                    out_h == row_count * ts,
            ;
        }
        let mut x: usize = 0;
        while x < target.width
            invariant
                0 <= x <= target.width,
                0 <= y < row_count,
                target.well_formed(),
                index@.len() > 0,
                ts >= 1,
                row_start + row_count <= target.height,
                tiles_well_formed(tiles@),
                out.well_formed(),
                out.width == out_w,
                out.height == out_h,
                out_w == target.width * ts,
                out_h == row_count * ts,
                y * ts >= 0,
                (y + 1) * ts == y * ts + ts,
                (y + 1) * ts <= out_h,
                forall|px: int, py: int|
                    0 <= px < out_w && 0 <= py < y * ts ==> out.pix(px, py) == mosaic_pixel(
                        *target,
                        index@,
                        tiles@,
                        ts as int,
                        px,
                        row_start * ts + py,
                    ),
                forall|px: int, py: int|
                    0 <= px < x * ts && y * ts <= py < (y + 1) * ts ==> out.pix(px, py)
                        == mosaic_pixel(
                        *target,
                        index@,
                        tiles@,
                        ts as int,
                        px,
                        row_start * ts + py,
                    ),
                forall|px: int, py: int|
                    x * ts <= px < out_w && y * ts <= py < (y + 1) * ts ==> out.pix(px, py)
                        == unpainted(),
                forall|px: int, py: int|
                    0 <= px < out_w && (y + 1) * ts <= py < out_h ==> out.pix(px, py)
                        == unpainted(),
            decreases target.width - x,
        {
            proof {
                assert((x + 1) * ts == x * ts + ts && x * ts >= 0 && (x + 1) * ts <= out_w)
                    by (nonlinear_arith)
                    requires
                        0 <= x < target.width,
                        ts >= 1,
                        out_w == target.width * ts,
                ;
            }
            let ghost pre = out;
            paint_cell(&mut out, target, index, tiles, row_start, x, y, ts);
            proof {
                assert forall|px: int, py: int|
                    0 <= px < out_w && 0 <= py < y * ts implies out.pix(px, py) == mosaic_pixel(
                    *target,
                    index@,
                    tiles@,
                    ts as int,
                    px,
                    row_start * ts + py,
                ) by {
                    assert(out.pix(px, py) == pre.pix(px, py));
                }
                assert forall|px: int, py: int|
                    0 <= px < (x + 1) * ts && y * ts <= py < (y + 1) * ts implies out.pix(px, py)
                    == mosaic_pixel(
                    *target,
                    index@,
                    tiles@,
                    ts as int,
                    px,
                    row_start * ts + py,
                ) by {
                    if px < x * ts {
                        assert(out.pix(px, py) == pre.pix(px, py));
                    }
                }
                assert forall|px: int, py: int|
                    (x + 1) * ts <= px < out_w && y * ts <= py < (y + 1) * ts implies out.pix(
                    px,
                    py,
                ) == unpainted() by {
                    assert(out.pix(px, py) == pre.pix(px, py));
                }
                assert forall|px: int, py: int|
                    0 <= px < out_w && (y + 1) * ts <= py < out_h implies out.pix(px, py)
                    == unpainted() by {
                    assert(out.pix(px, py) == pre.pix(px, py));
                }
            }
            x = x + 1;
        }
        proof {
            assert((y + 1) * ts == y * ts + ts) by (nonlinear_arith);
        }
        y = y + 1;
    }
    proof {
        assert(y * ts == out_h) by (nonlinear_arith)
            requires
                y == row_count,
                out_h == row_count * ts,
        ;
    }
    out
}

/// The output of one band worker: the band's position in the grid and the
/// raster it composed.
pub struct BandOutput {
    pub band: usize,
    pub raster: Raster,
}

/// A complete set of band outputs for an `n`-band run: exactly one output
/// per band position, each a well-formed raster of the common band shape.
pub open spec fn bands_complete(
    bands: Seq<BandOutput>,
    n: int,
    width: int,
    band_height: int,
) -> bool {
    &&& bands.len() == n
    &&& forall|k: int|
        0 <= k < n ==> (#[trigger] bands[k]).band < n && bands[k].raster.well_formed()
            && bands[k].raster.width == width && bands[k].raster.height == band_height
    &&& forall|k1: int, k2: int|
        0 <= k1 < k2 < n ==> (#[trigger] bands[k1]).band != (#[trigger] bands[k2]).band
    &&& forall|j: int| 0 <= j < n ==> #[trigger] covered(bands, j)
}

/// Some output in the set claims band position `j`.
pub open spec fn covered(bands: Seq<BandOutput>, j: int) -> bool {
    exists|k: int| 0 <= k < bands.len() && (#[trigger] bands[k]).band == j
}

/// A run whose band set is not complete produces no final raster.
#[derive(Clone, Copy, PartialEq, Eq, Structural, Debug)]
pub enum ReassembleError {
    IncompleteBands,
}

/// ParallelScheduler's fan-in: takes the band outputs in whatever order the
/// workers finished and pastes each band at the vertical offset its band
/// position dictates, so the result does not depend on completion order.
/// Succeeds exactly on a complete band set; a missing, repeated, misplaced
/// or misshapen band fails the whole run and no raster is produced.
pub fn reassemble(
    bands: &Vec<BandOutput>,
    n: usize,
    width: usize,
    band_height: usize,
) -> (r: Result<Raster, ReassembleError>)
    requires
        n * band_height <= usize::MAX,
        width * (n * band_height) <= usize::MAX,
    ensures
        match r {
            Ok(out) => {
                &&& bands_complete(bands@, n as int, width as int, band_height as int)
                &&& out.well_formed()
                &&& out.width == width
                &&& out.height == n * band_height
                &&& forall|k: int, x: int, dy: int|
                    0 <= k < n && 0 <= x < width && 0 <= dy < band_height ==> out.pix(
                        x,
                        bands@[k].band * band_height + dy,
                    ) == #[trigger] bands@[k].raster.pix(x, dy)
            },
            Err(e) => {
                &&& !bands_complete(bands@, n as int, width as int, band_height as int)
                &&& e == ReassembleError::IncompleteBands
            },
        },
{
    if bands.len() != n {
        return Err(ReassembleError::IncompleteBands);
    }
    let mut slots: Vec<Option<usize>> = Vec::new();
    let mut j: usize = 0;
    while j < n
        invariant
            0 <= j <= n,
            slots@.len() == j,
            forall|m: int| 0 <= m < j ==> slots@[m] is None,
        decreases n - j,
    {
        slots.push(None);
        j = j + 1;
    }
    let mut k: usize = 0;
    while k < n
        invariant
            0 <= k <= n,
            n * band_height <= usize::MAX,
            width * (n * band_height) <= usize::MAX,
            slots@.len() == n,
            bands@.len() == n,
            forall|m: int|
                0 <= m < n ==> (#[trigger] slots@[m] matches Some(i) ==> 0 <= i < k
                    && bands@[i as int].band == m),
            forall|i: int|
                0 <= i < k ==> slots@[(#[trigger] bands@[i]).band as int] == Some(i as usize),
            forall|i: int|
                0 <= i < k ==> (#[trigger] bands@[i]).band < n && bands@[i].raster.well_formed()
                    && bands@[i].raster.width == width && bands@[i].raster.height == band_height,
        decreases n - k,
    {
        proof {
            assert(width * band_height <= width * (n * band_height) && width * band_height == (
            width * band_height) as usize as int) by (nonlinear_arith)
                requires
                    1 <= n,
                    k < n,
                    width >= 0,
                    band_height >= 0,
                    width * (n * band_height) <= usize::MAX,
            ;
        }
        let band = bands[k].band;
        if band >= n {
            return Err(ReassembleError::IncompleteBands);
        }
        if bands[k].raster.width != width || bands[k].raster.height != band_height
            || bands[k].raster.pixels.len() != width * band_height {
            return Err(ReassembleError::IncompleteBands);
        }
        match slots[band] {
            Some(i) => {
                return Err(ReassembleError::IncompleteBands);
            },
            None => {},
        }
        slots[band] = Some(k);
        k = k + 1;
    }
    let mut out = Raster::new_filled(width, n * band_height, Color { r: 0, g: 0, b: 0 });
    let mut i: usize = 0;
    while i < n
        invariant
            0 <= i <= n,
            n * band_height <= usize::MAX,
            slots@.len() == n,
            bands@.len() == n,
            out.well_formed(),
            out.width == width,
            out.height == n * band_height,
            forall|m: int|
                0 <= m < n ==> (#[trigger] slots@[m] matches Some(s) ==> 0 <= s < n
                    && bands@[s as int].band == m),
            forall|q: int|
                0 <= q < n ==> slots@[(#[trigger] bands@[q]).band as int] == Some(q as usize),
            forall|q: int|
                0 <= q < n ==> (#[trigger] bands@[q]).band < n && bands@[q].raster.well_formed()
                    && bands@[q].raster.width == width && bands@[q].raster.height == band_height,
            forall|m: int| 0 <= m < i ==> (#[trigger] slots@[m]) is Some,
            forall|m: int, x: int, dy: int|
                0 <= m < i && 0 <= x < width && 0 <= dy < band_height ==> out.pix(
                    x,
                    m * band_height + dy,
                ) == #[trigger] bands@[slots@[m]->Some_0 as int].raster.pix(x, dy),
        decreases n - i,
    {
        proof {
            assert((i + 1) * band_height == i * band_height + band_height && i * band_height >= 0
                && (i + 1) * band_height <= n * band_height) by (nonlinear_arith)
                requires
                    0 <= i < n,
                    band_height >= 0,
            ;
        }
        match slots[i] {
            Some(s) => {
                let ghost pre = out;
                out.blit(&bands[s].raster, 0, i * band_height);
                proof {
                    assert forall|m: int, x: int, dy: int|
                        0 <= m < i && 0 <= x < width && 0 <= dy < band_height implies out.pix(
                        x,
                        m * band_height + dy,
                    ) == #[trigger] bands@[slots@[m]->Some_0 as int].raster.pix(x, dy) by {
                        assert((m + 1) * band_height == m * band_height + band_height && (m + 1)
                            * band_height <= i * band_height && m * band_height >= 0)
                            by (nonlinear_arith)
                            requires
                                0 <= m < i,
                                band_height >= 0,
                        ;
                        assert(out.pix(x, m * band_height + dy) == pre.pix(
                            x,
                            m * band_height + dy,
                        ));
                    }
                }
            },
            None => {
                proof {
                    if covered(bands@, i as int) {
                        let q = choose|k: int|
                            0 <= k < bands@.len() && (#[trigger] bands@[k]).band == i as int;
                        assert(slots@[i as int] == Some(q as usize));
                    }
                }
                return Err(ReassembleError::IncompleteBands);
            },
        }
        i = i + 1;
    }
    proof {
        assert forall|k1: int, k2: int|
            0 <= k1 < k2 < n implies (#[trigger] bands@[k1]).band != (#[trigger] bands@[k2]).band
            by {
            if bands@[k1].band == bands@[k2].band {
                assert(slots@[bands@[k1].band as int] == Some(k1 as usize));
                assert(slots@[bands@[k2].band as int] == Some(k2 as usize));
            }
        }
        assert forall|jj: int| 0 <= jj < n implies covered(bands@, jj) by {
            assert(slots@[jj] is Some);
            let s = slots@[jj]->Some_0;
            assert(0 <= s < bands@.len() && (bands@[s as int]).band == jj);
        }
        assert forall|q: int, x: int, dy: int|
            0 <= q < n && 0 <= x < width && 0 <= dy < band_height implies out.pix(
            x,
            bands@[q].band * band_height + dy,
        ) == #[trigger] bands@[q].raster.pix(x, dy) by {
            let m = bands@[q].band as int;
            assert(slots@[m] == Some(q as usize));
        }
    }
    Ok(out)
}

/// Composing the grid in `n` equal bands, each produced independently, and
/// pasting each band at its own offset yields exactly the raster that a
/// single band covering the whole grid produces: the two rasters agree on
/// every pixel, whatever order the bands were finished in.
pub proof fn lemma_bands_reassemble_to_whole(
    whole: Raster,
    reassembled: Raster,
    bands: Seq<BandOutput>,
    target: Raster,
    entries: Seq<IndexEntry>,
    tiles: Seq<Option<Raster>>,
    ts: int,
    n: int,
    band_height: int,
)
    requires
        n >= 0,
        band_height >= 1,
        bands_complete(bands, n, whole.width as int, band_height),
        // each band output was composed independently, covering the rows of
        // its own band position
        forall|k: int, px: int, py: int|
            0 <= k < n && 0 <= px < whole.width && 0 <= py < band_height ==> #[trigger] bands[k].raster.pix(px, py) == mosaic_pixel(
                target,
                entries,
                tiles,
                ts,
                px,
                bands[k].band * band_height + py,
            ),
        // the whole grid was composed in a single band
        whole.well_formed(),
        whole.height == n * band_height,
        forall|px: int, py: int|
            0 <= px < whole.width && 0 <= py < whole.height ==> whole.pix(px, py) == mosaic_pixel(
                target,
                entries,
                tiles,
                ts,
                px,
                py,
            ),
        // the band outputs were pasted each at its own vertical offset
        reassembled.well_formed(),
        reassembled.width == whole.width,
        reassembled.height == whole.height,
        forall|k: int, x: int, dy: int|
            0 <= k < n && 0 <= x < whole.width && 0 <= dy < band_height ==> reassembled.pix(
                x,
                bands[k].band * band_height + dy,
            ) == #[trigger] bands[k].raster.pix(x, dy),
    ensures
        reassembled.pixels@ == whole.pixels@,
{
    assert forall|px: int, py: int|
        0 <= px < whole.width && 0 <= py < whole.height implies reassembled.pix(px, py)
        == whole.pix(px, py) by {
        let m = py / band_height;
        let dy = py % band_height;
        vstd::arithmetic::div_mod::lemma_fundamental_div_mod(py, band_height);
        assert(0 <= dy < band_height && 0 <= m < n) by (nonlinear_arith)
            requires
                band_height >= 1,
                0 <= py < n * band_height,
                m == py / band_height,
                dy == py % band_height,
                py == band_height * m + dy,
        ;
        assert(covered(bands, m));
        let k = choose|k: int| 0 <= k < bands.len() && (#[trigger] bands[k]).band == m;
        assert(0 <= k < n && bands[k].band == m);
        assert(py == m * band_height + dy) by (nonlinear_arith)
            requires
                py == band_height * m + dy,
        ;
        assert(reassembled.pix(px, m * band_height + dy) == bands[k].raster.pix(px, dy));
        assert(bands[k].raster.pix(px, dy) == mosaic_pixel(
            target,
            entries,
            tiles,
            ts,
            px,
            m * band_height + dy,
        ));
        assert(whole.pix(px, py) == mosaic_pixel(target, entries, tiles, ts, px, py));
    }
    lemma_pixelwise_equal(whole, reassembled);
    assert(whole.pixels@ =~= reassembled.pixels@);
}

/// Paints the block of grid cell `(x, y)` (band-local) of the band raster:
/// the matched tile's pixels where the tile is usable. A cell with an
/// unusable tile keeps its unpainted block.
fn paint_cell(
    out: &mut Raster,
    target: &Raster,
    index: &ColorIndex,
    tiles: &Vec<Option<Raster>>,
    row_start: usize,
    x: usize,
    y: usize,
    ts: usize,
)
    requires
        old(out).well_formed(),
        target.well_formed(),
        index@.len() > 0,
        ts >= 1,
        x < target.width,
        row_start + y < target.height,
        target.width * ts <= old(out).width,
        (y + 1) * ts <= old(out).height,
        tiles_well_formed(tiles@),
        forall|px: int, py: int|
            x * ts <= px < (x + 1) * ts && y * ts <= py < (y + 1) * ts ==> old(out).pix(px, py)
                == unpainted(),
    ensures
        final(out).well_formed(),
        final(out).width == old(out).width,
        final(out).height == old(out).height,
        forall|px: int, py: int|
            x * ts <= px < (x + 1) * ts && y * ts <= py < (y + 1) * ts ==> final(out).pix(px, py)
                == mosaic_pixel(*target, index@, tiles@, ts as int, px, row_start * ts + py),
        forall|px: int, py: int|
            0 <= px < final(out).width && 0 <= py < final(out).height && !(x * ts <= px < (x + 1)
                * ts && y * ts <= py < (y + 1) * ts) ==> final(out).pix(px, py) == old(out).pix(
                px,
                py,
            ),
{
    proof {
        assert((x + 1) * ts == x * ts + ts && x * ts >= 0 && (x + 1) * ts <= target.width * ts)
            by (nonlinear_arith)
            requires
                0 <= x < target.width,
                ts >= 1,
        ;
        assert((y + 1) * ts == y * ts + ts && y * ts >= 0) by (nonlinear_arith)
            requires
                y >= 0,
                ts >= 1,
        ;
    }
    let sample = target.get_pixel(x, row_start + y);
    let id: usize = match index.closest_tile(sample) {
        Some(i) => i,
        // the index is never empty here: callers rule that out as a
        // configuration error
        None => unreached(),
    };
    let ghost cell_tile = usable_tile(tiles@, id as int, ts as int);
    let mut painted = false;
    if id < tiles.len() {
        match &tiles[id] {
            Some(t) => {
                if t.width == ts && t.height == ts {
                    out.blit(t, x * ts, y * ts);
                    painted = true;
                    proof {
                        assert(cell_tile == Some(*t));
                    }
                }
            },
            None => {},
        }
    }
    proof {
        if !painted {
            assert(cell_tile is None);
        }
        assert forall|px: int, py: int|
            x * ts <= px < (x + 1) * ts && y * ts <= py < (y + 1) * ts implies out.pix(px, py)
            == mosaic_pixel(*target, index@, tiles@, ts as int, px, row_start * ts + py) by {
            lemma_cell_decompose(px, x as int, ts as int);
            lemma_cell_decompose(py, y as int, ts as int);
            let apy = row_start * ts + py;
            assert((row_start + y) * ts <= apy < (row_start + y + 1) * ts && apy - (row_start + y)
                * ts == py - y * ts) by (nonlinear_arith)
                requires
                    apy == row_start * ts + py,
                    y * ts <= py < (y + 1) * ts,
                    ts >= 1,
                    row_start >= 0,
                    y >= 0,
            ;
            lemma_cell_decompose(apy, row_start + y as int, ts as int);
            assert(target.pix(px / (ts as int), apy / (ts as int)) == sample);
            if painted {
                let t = cell_tile->Some_0;
                assert(out.pix(px, py) == t.pix(px - x * ts, py - y * ts));
            }
        }
    }
}

/// RowPartitioner: the rows of the cell grid that band `i` of `n` covers —
/// `total_rows / n` rows starting at `i` times that count. The bands are
/// contiguous and disjoint, and when `n` divides the row count the `n`
/// bands partition the grid's rows, covering every row exactly once;
/// otherwise the last `total_rows % n` rows fall outside every band, as
/// the two-band split at the vertical midpoint leaves them, and the caller
/// pads the canvas.
pub fn band_rows(total_rows: usize, n: usize, i: usize) -> (r: (usize, usize))
    requires
        n >= 1,
        i < n,
    ensures
        r.1 == total_rows as int / n as int,
        r.0 == i * r.1,
        r.0 + r.1 <= total_rows,
        n * r.1 <= total_rows,
        total_rows as int % n as int == 0 ==> n * r.1 == total_rows,
{
    let per = total_rows / n;
    proof {
        assert(i * per + per <= total_rows && n * per <= total_rows && (total_rows as int
            % n as int == 0 ==> n * per == total_rows)) by (nonlinear_arith)
            requires
                n >= 1,
                0 <= i < n,
                per == total_rows as int / n as int,
                total_rows >= 0,
        ;
    }
    (i * per, per)
}

} // verus!
