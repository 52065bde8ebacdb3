use mosaic_art::codec::{color_to_hex, hex_to_color, load_index, store_index};
use mosaic_art::color::Color;
use mosaic_art::index::{build_index, ColorIndex, IndexEntry};

fn rgb(r: u8, g: u8, b: u8) -> Color {
    Color { r, g, b }
}

#[test]
fn store_writes_canonical_json_object() {
    let index = ColorIndex {
        entries: vec![
            IndexEntry { id: 0, color: rgb(255, 0, 0) },
            IndexEntry { id: 1, color: rgb(0, 255, 0) },
        ],
    };
    assert_eq!(store_index(&index), b"{\"0\":\"#FF0000\",\"1\":\"#00FF00\"}".to_vec());
}

#[test]
fn store_empty_index() {
    let index = ColorIndex { entries: Vec::new() };
    assert_eq!(store_index(&index), b"{}".to_vec());
}

#[test]
fn load_reads_back_what_store_wrote() {
    let index = ColorIndex {
        entries: vec![
            IndexEntry { id: 0, color: rgb(255, 0, 0) },
            IndexEntry { id: 2, color: rgb(10, 200, 30) },
            IndexEntry { id: 15, color: rgb(0, 0, 255) },
        ],
    };
    let stored = store_index(&index);
    let loaded = load_index(&stored).expect("canonical file must load");
    assert_eq!(loaded.entries, index.entries);
}

#[test]
fn load_accepts_empty_object() {
    let loaded = load_index(b"{}").expect("empty object is a valid index");
    assert!(loaded.entries.is_empty());
}

#[test]
fn load_rejects_malformed_files() {
    assert!(load_index(b"").is_err());
    assert!(load_index(b"{").is_err());
    assert!(load_index(b"not an index").is_err());
    assert!(load_index(b"{\"0\":\"#FF0000\"").is_err());
    assert!(load_index(b"{}x").is_err());
    assert!(load_index(b"{ \"0\":\"#FF0000\" }").is_err());
}

#[test]
fn load_rejects_noncanonical_keys_and_colors() {
    // identifiers out of order
    assert!(load_index(b"{\"1\":\"#00FF00\",\"0\":\"#FF0000\"}").is_err());
    // repeated identifier
    assert!(load_index(b"{\"0\":\"#00FF00\",\"0\":\"#FF0000\"}").is_err());
    // leading zero in an identifier
    assert!(load_index(b"{\"00\":\"#FF0000\"}").is_err());
    // lowercase hex digits
    assert!(load_index(b"{\"0\":\"#ff0000\"}").is_err());
    // color text of the wrong shape
    assert!(load_index(b"{\"0\":\"FF0000\"}").is_err());
    assert!(load_index(b"{\"0\":\"#FF000\"}").is_err());
}

#[test]
fn maintenance_twice_writes_identical_file() {
    let colors = vec![Some(rgb(255, 0, 0)), None, Some(rgb(0, 0, 255))];
    let first = store_index(&build_index(&colors));
    let second = store_index(&build_index(&colors));
    assert_eq!(first, second);
}

#[test]
fn hex_text_round_trip() {
    assert_eq!(color_to_hex(rgb(255, 0, 0)), b"#FF0000".to_vec());
    assert_eq!(color_to_hex(rgb(10, 200, 30)), b"#0AC81E".to_vec());
    assert_eq!(hex_to_color(b"#0AC81E"), Some(rgb(10, 200, 30)));
    let c = rgb(1, 254, 77);
    assert_eq!(hex_to_color(&color_to_hex(c)), Some(c));
}

#[test]
fn hex_rejects_noncanonical_text() {
    assert_eq!(hex_to_color(b"FF0000"), None);
    assert_eq!(hex_to_color(b"#ff0000"), None);
    assert_eq!(hex_to_color(b"#FF00000"), None);
    assert_eq!(hex_to_color(b""), None);
}

#[test]
fn load_handles_the_largest_identifier() {
    let index = ColorIndex {
        entries: vec![IndexEntry { id: usize::MAX, color: rgb(1, 2, 3) }],
    };
    let stored = store_index(&index);
    let expected = format!("{{\"{}\":\"#010203\"}}", usize::MAX);
    assert_eq!(stored, expected.into_bytes());
    let loaded = load_index(&stored).expect("largest identifier must load");
    assert_eq!(loaded.entries, index.entries);
}

#[test]
fn load_rejects_identifiers_beyond_the_machine() {
    // one past the largest usize on this machine
    let too_big = format!("{{\"{}\":\"#010203\"}}", (usize::MAX as u128) + 1);
    assert!(load_index(too_big.as_bytes()).is_err());
    // far past it
    let far = "{\"999999999999999999999999999999\":\"#010203\"}";
    assert!(load_index(far.as_bytes()).is_err());
}
