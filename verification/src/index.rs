//! The color index and the matcher that picks the closest tile for a
//! sample color (TileIndexer and ColorMatcher).

use vstd::prelude::*;

use crate::color::{distance, Color};

verus! {

/// One entry of the color index: a tile identifier and the representative
/// color derived for that tile.
#[derive(Clone, Copy, PartialEq, Eq, Structural, Debug)]
pub struct IndexEntry {
    pub id: usize,
    pub color: Color,
}

/// The color index: one representative color per tile, held in strictly
/// increasing identifier order. Identifiers are the tiles' positions in the
/// enumerated tile set; a tile whose image could not be decoded leaves a gap.
/// The fixed order makes matching deterministic: ties always resolve to the
/// entry with the smallest identifier.
#[derive(Clone, PartialEq, Eq, Debug)]
pub struct ColorIndex {
    pub entries: Vec<IndexEntry>,
}

impl View for ColorIndex {
    type V = Seq<IndexEntry>;

    open spec fn view(&self) -> Seq<IndexEntry> {
        self.entries@
    }
}

impl ColorIndex {
    /// Identifiers are strictly increasing, so each occurs at most once and
    /// enumeration order is the identifier order.
    pub open spec fn well_formed(self) -> bool {
        strictly_increasing(self@)
    }

    /// How many entries the index holds.
    pub fn len(&self) -> (n: usize)
        ensures
            n == self@.len(),
    {
        self.entries.len()
    }

    /// ColorMatcher: the identifier of the entry whose color is closest to
    /// `sample`; among equally close entries the one encountered first (the
    /// smallest position) wins. `None` exactly when the index is empty,
    /// which callers treat as a fatal configuration error.
    pub fn closest_tile(&self, sample: Color) -> (r: Option<usize>)
        ensures
            r == matched_tile(self@, sample),
            r is None <==> self@.len() == 0,
    {
        if self.entries.len() == 0 {
            return None;
        }
        let mut best: usize = 0;
        let mut best_dist: i32 = crate::color::color_distance(self.entries[0].color, sample);
        let mut i: usize = 1;
        while i < self.entries.len()
            invariant
                1 <= i <= self@.len(),
                best == best_position(self@, sample, i as int),
                0 <= best < i,
                best_dist == distance(self@[best as int].color, sample),
            decreases self@.len() - i,
        {
            let d = crate::color::color_distance(self.entries[i].color, sample);
            if d < best_dist {
                best = i;
                best_dist = d;
            }
            i = i + 1;
        }
        Some(self.entries[best].id)
    }
}

/// The identifiers of a sequence of entries are strictly increasing.
pub open spec fn strictly_increasing(entries: Seq<IndexEntry>) -> bool {
    forall|i: int, j: int| 0 <= i < j < entries.len() ==> entries[i].id < entries[j].id
}

/// The position, among the first `n` entries, of the entry the matcher
/// settles on: the first one whose distance to `sample` is minimal.
pub open spec fn best_position(entries: Seq<IndexEntry>, sample: Color, n: int) -> int
    decreases n,
{
    if n <= 1 {
        0
    } else {
        let prev = best_position(entries, sample, n - 1);
        if distance(entries[n - 1].color, sample) < distance(entries[prev].color, sample) {
            n - 1
        } else {
            prev
        }
    }
}

/// What the matcher returns on a given index and sample color: the
/// identifier at the best position, or nothing when the index is empty.
pub open spec fn matched_tile(entries: Seq<IndexEntry>, sample: Color) -> Option<usize> {
    if entries.len() == 0 {
        None
    } else {
        Some(entries[best_position(entries, sample, entries.len() as int)].id)
    }
}

/// The matcher picks an entry that is present in the index, no other entry
/// lies strictly closer to the sample, and every entry before the picked one
/// lies strictly farther: the first minimum wins.
pub proof fn lemma_match_is_minimal(entries: Seq<IndexEntry>, sample: Color)
    requires
        entries.len() > 0,
    ensures
        ({
            let p = best_position(entries, sample, entries.len() as int);
            &&& 0 <= p < entries.len()
            &&& matched_tile(entries, sample) == Some(entries[p].id)
            &&& forall|j: int|
                0 <= j < entries.len() ==> distance(entries[p].color, sample) <= distance(
                    entries[j].color,
                    sample,
                )
            &&& forall|j: int|
                0 <= j < p ==> distance(entries[j].color, sample) > distance(
                    entries[p].color,
                    sample,
                )
        }),
{
    lemma_best_position_minimal(entries, sample, entries.len() as int);
}

proof fn lemma_best_position_minimal(entries: Seq<IndexEntry>, sample: Color, n: int)
    requires
        1 <= n <= entries.len(),
    ensures
        ({
            let p = best_position(entries, sample, n);
            &&& 0 <= p < n
            &&& forall|j: int|
                0 <= j < n ==> distance(entries[p].color, sample) <= distance(
                    entries[j].color,
                    sample,
                )
            &&& forall|j: int|
                0 <= j < p ==> distance(entries[j].color, sample) > distance(
                    entries[p].color,
                    sample,
                )
        }),
    decreases n,
{
    if n > 1 {
        lemma_best_position_minimal(entries, sample, n - 1);
    }
}

/// An index with a single entry matches every possible sample color to that
/// one entry.
pub proof fn lemma_single_entry_matches_all(entries: Seq<IndexEntry>, sample: Color)
    requires
        entries.len() == 1,
    ensures
        matched_tile(entries, sample) == Some(entries[0].id),
{
}

/// The index that maintenance derives from the tiles' representative colors:
/// the tile at position `i` contributes the entry `(i, color)` when a color
/// was obtained for it, and is skipped otherwise, leaving a gap in the
/// identifiers.
pub open spec fn index_of_colors(colors: Seq<Option<Color>>) -> Seq<IndexEntry>
    decreases colors.len(),
{
    if colors.len() == 0 {
        Seq::empty()
    } else {
        index_of_colors(colors.drop_last()) + match colors.last() {
            Some(c) => seq![IndexEntry { id: (colors.len() - 1) as usize, color: c }],
            None => Seq::empty(),
        }
    }
}

/// Every identifier that `index_of_colors` assigns is below the bound `n`
/// whenever the colors came from at most `n` tiles.
proof fn lemma_index_of_colors_ids(colors: Seq<Option<Color>>)
    requires
        colors.len() <= usize::MAX,
    ensures
        forall|k: int|
            0 <= k < index_of_colors(colors).len() ==> #[trigger] index_of_colors(colors)[k].id
                < colors.len(),
        strictly_increasing(index_of_colors(colors)),
    decreases colors.len(),
{
    if colors.len() > 0 {
        lemma_index_of_colors_ids(colors.drop_last());
        let prev = index_of_colors(colors.drop_last());
        let full = index_of_colors(colors);
        match colors.last() {
            Some(c) => {
                let e = IndexEntry { id: (colors.len() - 1) as usize, color: c };
                assert(full == prev + seq![e]);
                assert forall|i: int, j: int|
                    0 <= i < j < full.len() implies full[i].id < full[j].id by {
                    if j < prev.len() {
                        assert(full[i] == prev[i] && full[j] == prev[j]);
                    } else {
                        assert(full[j] == e);
                        assert(full[i] == prev[i]);
                        assert(prev[i].id < colors.drop_last().len());
                    }
                }
                assert forall|k: int|
                    0 <= k < full.len() implies #[trigger] full[k].id < colors.len() by {
                    if k < prev.len() {
                        assert(full[k] == prev[k]);
                    } else {
                        assert(full[k] == e);
                    }
                }
            },
            None => {
                assert(full == prev);
            },
        }
    }
}

/// TileIndexer: builds the color index from the representative colors of the
/// enumerated tile set. `colors[i]` is the color derived for tile `i`, or
/// nothing where that tile's image failed to decode; failed tiles are
/// skipped, the rest keep their stable identifier.
pub fn build_index(colors: &Vec<Option<Color>>) -> (index: ColorIndex)
    ensures
        index@ == index_of_colors(colors@),
        index.well_formed(),
{
    let mut entries: Vec<IndexEntry> = Vec::new();
    let mut i: usize = 0;
    while i < colors.len()
        invariant
            0 <= i <= colors@.len(),
            entries@ == index_of_colors(colors@.take(i as int)),
        decreases colors@.len() - i,
    {
        proof {
            assert(colors@.take(i + 1).drop_last() =~= colors@.take(i as int));
            assert(colors@.take(i + 1).last() == colors@[i as int]);
        }
        match colors[i] {
            Some(c) => {
                entries.push(IndexEntry { id: i, color: c });
                proof {
                    assert(entries@ =~= index_of_colors(colors@.take(i + 1)));
                }
            },
            None => {
                proof {
                    assert(entries@ =~= index_of_colors(colors@.take(i + 1)));
                }
            },
        }
        i = i + 1;
    }
    proof {
        assert(colors@.take(colors@.len() as int) =~= colors@);
        lemma_index_of_colors_ids(colors@);
    }
    ColorIndex { entries }
}

/// TileIndexer keeps each tile's representative color exactly: every tile
/// whose color was obtained has an entry pairing its identifier with that
/// color, with no drift in any channel.
pub proof fn lemma_index_entry_exact(colors: Seq<Option<Color>>, i: int)
    requires
        colors.len() <= usize::MAX,
        0 <= i < colors.len(),
        colors[i] is Some,
    ensures
        exists|k: int|
            0 <= k < index_of_colors(colors).len() && #[trigger] index_of_colors(colors)[k]
                == (IndexEntry { id: i as usize, color: colors[i]->Some_0 }),
    decreases colors.len(),
{
    let full = index_of_colors(colors);
    let prev = index_of_colors(colors.drop_last());
    if i == colors.len() - 1 {
        let e = IndexEntry { id: i as usize, color: colors[i]->Some_0 };
        assert(full == prev + seq![e]);
        assert(full[prev.len() as int] == e);
    } else {
        assert(colors.drop_last()[i] == colors[i]);
        lemma_index_entry_exact(colors.drop_last(), i);
        let k = choose|k: int|
            0 <= k < prev.len() && #[trigger] prev[k] == (IndexEntry {
                id: i as usize,
                color: colors.drop_last()[i]->Some_0,
            });
        match colors.last() {
            Some(c) => {
                assert(full == prev + seq![IndexEntry {
                    id: (colors.len() - 1) as usize,
                    color: c,
                }]);
                assert(full[k] == prev[k]);
            },
            None => {
                assert(full == prev);
            },
        }
    }
}

} // verus!
