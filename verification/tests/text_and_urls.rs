use tile_mosaic::geometry::TileIndex;
use tile_mosaic::text::{decimal_string, fill_in, same_text};
use tile_mosaic::tileset::TileSet;

#[test]
fn osm_pattern_holds_the_three_placeholders() {
    let pattern = TileSet::Osm.url_pattern();
    assert_eq!(pattern, "https://tile.openstreetmap.org/{z}/{x}/{y}.png");
    assert!(pattern.contains("{z}") && pattern.contains("{x}") && pattern.contains("{y}"));
}

#[test]
fn swisstopo_pattern_holds_the_three_placeholders() {
    let pattern = TileSet::Swisstopo.url_pattern();
    assert_eq!(
        pattern,
        "https://wmts.geo.admin.ch/1.0.0/ch.swisstopo.landeskarte-farbe-10/default/current/3857/{z}/{x}/{y}.png"
    );
}

#[test]
fn osm_tile_url_puts_zoom_column_row() {
    let url = TileSet::Osm.tile_url(&TileIndex { x: 3366, y: 2431, z: 12 });
    assert_eq!(url, "https://tile.openstreetmap.org/12/3366/2431.png");
}

#[test]
fn swisstopo_tile_url_puts_zoom_column_row() {
    let url = TileSet::Swisstopo.tile_url(&TileIndex { x: 0, y: 4294967295, z: 7 });
    assert_eq!(
        url,
        "https://wmts.geo.admin.ch/1.0.0/ch.swisstopo.landeskarte-farbe-10/default/current/3857/7/0/4294967295.png"
    );
}

#[test]
fn tile_url_keeps_column_and_row_apart() {
    let a = TileSet::Osm.tile_url(&TileIndex { x: 1, y: 2, z: 3 });
    let b = TileSet::Osm.tile_url(&TileIndex { x: 2, y: 1, z: 3 });
    assert_eq!(a, "https://tile.openstreetmap.org/3/1/2.png");
    assert_eq!(b, "https://tile.openstreetmap.org/3/2/1.png");
}

#[test]
fn decimal_of_small_and_large_numbers() {
    assert_eq!(decimal_string(0), "0");
    assert_eq!(decimal_string(9), "9");
    assert_eq!(decimal_string(10), "10");
    assert_eq!(decimal_string(2431), "2431");
    assert_eq!(decimal_string(4294967295), "4294967295");
    assert_eq!(decimal_string(18446744073709551615), "18446744073709551615");
}

#[test]
fn decimal_agrees_with_std_on_a_range() {
    let mut n: u64 = 0;
    while n < 3000 {
        assert_eq!(decimal_string(n), n.to_string());
        n += 7;
    }
}

#[test]
fn fill_in_replaces_every_occurrence() {
    assert_eq!(fill_in("a{x}b{x}c", "{x}", "12"), "a12b12c");
    assert_eq!(fill_in("{x}", "{x}", ""), "");
    assert_eq!(fill_in("{x}{x}", "{x}", "7"), "77");
}

#[test]
fn fill_in_without_occurrence_changes_nothing() {
    assert_eq!(fill_in("abc", "{x}", "12"), "abc");
    assert_eq!(fill_in("", "{x}", "12"), "");
    assert_eq!(fill_in("{x", "{x}", "12"), "{x");
}

#[test]
fn fill_in_with_empty_placeholder_changes_nothing() {
    assert_eq!(fill_in("abc", "", "12"), "abc");
}

#[test]
fn fill_in_does_not_search_what_it_put_in() {
    assert_eq!(fill_in("aaa", "aa", "b"), "ba");
    assert_eq!(fill_in("ab", "a", "aa"), "aab");
}

#[test]
fn fill_in_agrees_with_std_replace() {
    let templates = ["x/{z}/{z}", "{z", "z}{z}{", "{{z}}", "\u{e9}\u{e9}{z}\u{e9}"];
    for t in templates.iter() {
        assert_eq!(fill_in(t, "{z}", "15"), t.replace("{z}", "15"));
    }
}

#[test]
fn same_text_compares_characters() {
    assert!(same_text("image/png", "image/png"));
    assert!(!same_text("image/png", "image/pnG"));
    assert!(!same_text("image/png", "image/png "));
    assert!(same_text("", ""));
    assert!(!same_text("", "a"));
}
