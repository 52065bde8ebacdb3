//! Colors and the squared-distance metric that tile matching minimizes.

use vstd::prelude::*;

verus! {

/// An 8-bit-per-channel RGB color. Alpha is dropped everywhere in the
/// mosaic pipeline, so the library never carries it.
#[derive(Clone, Copy, PartialEq, Eq, Structural, Debug)]
pub struct Color {
    pub r: u8,
    pub g: u8,
    pub b: u8,
}

/// The squared difference of one channel, as a mathematical integer.
pub open spec fn channel_distance(a: u8, b: u8) -> int {
    (a - b) * (a - b)
}

/// The matching distance between two colors: the sum over the three
/// channels of the squared channel difference. Taking the absolute value
/// of the difference before squaring, as the matcher documents, changes
/// nothing mathematically; the distance is always non-negative.
pub open spec fn distance(a: Color, b: Color) -> int {
    channel_distance(a.r, b.r) + channel_distance(a.g, b.g) + channel_distance(a.b, b.b)
}

/// The largest distance two colors can have: `3 * 255 * 255`. The matcher's
/// search can therefore start from any sentinel above this bound.
pub const MAX_DISTANCE: i32 = 195075;

proof fn lemma_channel_distance(a: u8, b: u8)
    ensures
        0 <= channel_distance(a, b) <= 65025,
        channel_distance(a, b) == 0 <==> a == b,
{
    let d = a - b;
    assert(-255 <= d <= 255);
    assert(0 <= d * d <= 65025 && (d * d == 0 <==> d == 0)) by (nonlinear_arith)
        requires
            -255 <= d <= 255,
    ;
}

/// Every distance lies between zero and `MAX_DISTANCE`.
pub proof fn lemma_distance_bounds(a: Color, b: Color)
    ensures
        0 <= distance(a, b) <= MAX_DISTANCE,
{
    lemma_channel_distance(a.r, b.r);
    lemma_channel_distance(a.g, b.g);
    lemma_channel_distance(a.b, b.b);
}

/// The distance of two colors is zero exactly when they are the same color.
pub proof fn lemma_distance_zero_iff_equal(a: Color, b: Color)
    ensures
        distance(a, b) == 0 <==> a == b,
{
    lemma_channel_distance(a.r, b.r);
    lemma_channel_distance(a.g, b.g);
    lemma_channel_distance(a.b, b.b);
}

/// The channel of a color selected by an index 0, 1 or 2.
pub open spec fn channel(c: Color, i: int) -> u8 {
    if i == 0 {
        c.r
    } else if i == 1 {
        c.g
    } else {
        c.b
    }
}

/// `p0, p1, p2` name each of the three channels exactly once.
pub open spec fn is_channel_permutation(p0: int, p1: int, p2: int) -> bool {
    &&& 0 <= p0 < 3
    &&& 0 <= p1 < 3
    &&& 0 <= p2 < 3
    &&& p0 != p1
    &&& p1 != p2
    &&& p0 != p2
}

/// The color whose channels are those of `c`, reordered by the permutation.
pub open spec fn permute(c: Color, p0: int, p1: int, p2: int) -> Color {
    Color { r: channel(c, p0), g: channel(c, p1), b: channel(c, p2) }
}

/// Reordering the channels of both colors in the same way leaves their
/// distance unchanged: the same three squared differences are summed,
/// only in another order.
pub proof fn lemma_distance_permutation_invariant(a: Color, b: Color, p0: int, p1: int, p2: int)
    requires
        is_channel_permutation(p0, p1, p2),
    ensures
        distance(permute(a, p0, p1, p2), permute(b, p0, p1, p2)) == distance(a, b),
{
}

/// Computes the matching distance between a color of the index and a sample
/// color, exactly as `distance` defines it.
pub fn color_distance(a: Color, b: Color) -> (d: i32)
    ensures
        d == distance(a, b),
        0 <= d <= MAX_DISTANCE,
{
    proof {
        lemma_distance_bounds(a, b);
    }
    let dr = a.r as i32 - b.r as i32;
    let dg = a.g as i32 - b.g as i32;
    let db = a.b as i32 - b.b as i32;
    assert(0 <= dr * dr <= 65025 && 0 <= dg * dg <= 65025 && 0 <= db * db <= 65025)
        by (nonlinear_arith)
        requires
            -255 <= dr <= 255,
            -255 <= dg <= 255,
            -255 <= db <= 255,
    ;
    assert(dr * dr == channel_distance(a.r, b.r));
    assert(dg * dg == channel_distance(a.g, b.g));
    assert(db * db == channel_distance(a.b, b.b));
    dr * dr + dg * dg + db * db
}

} // verus!
