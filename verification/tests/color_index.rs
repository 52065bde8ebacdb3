use mosaic_art::color::{color_distance, Color, MAX_DISTANCE};
use mosaic_art::index::{build_index, ColorIndex, IndexEntry};

fn rgb(r: u8, g: u8, b: u8) -> Color {
    Color { r, g, b }
}

#[test]
fn distance_exact_value() {
    assert_eq!(color_distance(rgb(10, 20, 30), rgb(13, 24, 30)), 9 + 16);
    assert_eq!(color_distance(rgb(0, 0, 0), rgb(1, 2, 3)), 1 + 4 + 9);
}

#[test]
fn distance_zero_iff_equal() {
    assert_eq!(color_distance(rgb(7, 8, 9), rgb(7, 8, 9)), 0);
    assert!(color_distance(rgb(7, 8, 9), rgb(7, 8, 10)) > 0);
    assert!(color_distance(rgb(0, 8, 9), rgb(7, 8, 9)) > 0);
}

#[test]
fn distance_channel_permutation_invariant() {
    let a = rgb(1, 2, 3);
    let b = rgb(200, 100, 50);
    let a_swapped = rgb(3, 1, 2);
    let b_swapped = rgb(50, 200, 100);
    assert_eq!(color_distance(a, b), color_distance(a_swapped, b_swapped));
}

#[test]
fn distance_never_exceeds_bound() {
    assert_eq!(color_distance(rgb(0, 0, 0), rgb(255, 255, 255)), MAX_DISTANCE);
    assert_eq!(MAX_DISTANCE, 195075);
}

#[test]
fn build_index_skips_failed_tiles_and_keeps_ids() {
    let colors = vec![Some(rgb(255, 0, 0)), None, Some(rgb(0, 0, 255))];
    let index = build_index(&colors);
    assert_eq!(
        index.entries,
        vec![
            IndexEntry { id: 0, color: rgb(255, 0, 0) },
            IndexEntry { id: 2, color: rgb(0, 0, 255) },
        ]
    );
}

#[test]
fn matcher_returns_closest_entry() {
    let colors = vec![
        Some(rgb(255, 0, 0)),
        Some(rgb(0, 255, 0)),
        Some(rgb(0, 0, 255)),
    ];
    let index = build_index(&colors);
    assert_eq!(index.closest_tile(rgb(200, 30, 40)), Some(0));
    assert_eq!(index.closest_tile(rgb(10, 240, 10)), Some(1));
    assert_eq!(index.closest_tile(rgb(0, 0, 200)), Some(2));
}

#[test]
fn matcher_breaks_ties_toward_first_entry() {
    // both entries are at the same distance from the sample
    let index = ColorIndex {
        entries: vec![
            IndexEntry { id: 4, color: rgb(10, 0, 0) },
            IndexEntry { id: 9, color: rgb(30, 0, 0) },
        ],
    };
    assert_eq!(index.closest_tile(rgb(20, 0, 0)), Some(4));
}

#[test]
fn single_entry_matches_every_sample() {
    let index = ColorIndex {
        entries: vec![IndexEntry { id: 7, color: rgb(1, 2, 3) }],
    };
    assert_eq!(index.closest_tile(rgb(0, 0, 0)), Some(7));
    assert_eq!(index.closest_tile(rgb(255, 255, 255)), Some(7));
    assert_eq!(index.closest_tile(rgb(1, 2, 3)), Some(7));
}

#[test]
fn empty_index_matches_nothing() {
    let index = ColorIndex { entries: Vec::new() };
    assert_eq!(index.closest_tile(rgb(1, 2, 3)), None);
}
