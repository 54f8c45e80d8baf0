//! Tile sources and their URL templates.

use vstd::prelude::*;
use crate::geometry::TileIndex;
use crate::text::{
    decimal,
    decimal_string,
    fill,
    fill_in,
    lemma_decimal_digits,
    lemma_fill_absent,
    lemma_fill_here,
    lemma_fill_skip,
};

verus! {

/// A public tile source.
#[derive(Copy, Clone, Debug, PartialEq, Eq)]
pub enum TileSet {
    Osm,
    Swisstopo,
}

impl TileSet {
    /// The URL template of the source, as a sequence of characters.
    pub open spec fn pattern(self) -> Seq<char> {
        match self {
            TileSet::Osm => "https://tile.openstreetmap.org/{z}/{x}/{y}.png"@,
            TileSet::Swisstopo => "https://wmts.geo.admin.ch/1.0.0/ch.swisstopo.landeskarte-farbe-10/default/current/3857/{z}/{x}/{y}.png"@,
        }
    }

    /// What stands in the template before the placeholders.
    pub open spec fn base(self) -> Seq<char> {
        match self {
            TileSet::Osm => "https://tile.openstreetmap.org/"@,
            TileSet::Swisstopo => "https://wmts.geo.admin.ch/1.0.0/ch.swisstopo.landeskarte-farbe-10/default/current/3857/"@,
        }
    }

    /// The URL template of the source. It holds the placeholders `{z}`,
    /// `{x}` and `{y}` for the zoom level, the column and the row of a tile.
    pub fn url_pattern(&self) -> (pattern: &'static str)
        ensures
            pattern@ == self.pattern(),
    {
        match self {
            TileSet::Osm => "https://tile.openstreetmap.org/{z}/{x}/{y}.png",
            TileSet::Swisstopo => "https://wmts.geo.admin.ch/1.0.0/ch.swisstopo.landeskarte-farbe-10/default/current/3857/{z}/{x}/{y}.png",
        }
    }

    /// The URL of a tile: the template with the zoom level put in for
    /// `{z}`, then the column for `{x}`, then the row for `{y}`, each as a
    /// decimal numeral.
    pub open spec fn url_of(self, tile: TileIndex) -> Seq<char> {
        fill(
            fill(
                fill(self.pattern(), "{z}"@, decimal(tile.z as nat)),
                "{x}"@,
                decimal(tile.x as nat),
            ),
            "{y}"@,
            decimal(tile.y as nat),
        )
    }

    /// The URL from which the source serves the tile.
    pub fn tile_url(&self, tile: &TileIndex) -> (url: String)
        ensures
            url@ == self.url_of(*tile),
            url@ == self.base() + decimal(tile.z as nat) + "/"@ + decimal(tile.x as nat) + "/"@
                + decimal(tile.y as nat) + ".png"@,
    {
        proof {
            lemma_url_shape(*self, *tile);
        }
        let z = decimal_string(tile.z as u64);
        let x = decimal_string(tile.x as u64);
        let y = decimal_string(tile.y as u64);
        let with_z = fill_in(self.url_pattern(), "{z}", z.as_str());
        let with_x = fill_in(with_z.as_str(), "{x}", x.as_str());
        fill_in(with_x.as_str(), "{y}", y.as_str())
    }
}

/// Every template is its base followed by `{z}/{x}/{y}.png`, and no base
/// holds an opening brace.
pub proof fn lemma_pattern_shape(t: TileSet)
    ensures
        t.pattern() == t.base() + "{z}/{x}/{y}.png"@,
        forall|i: int| 0 <= i < t.base().len() ==> t.base()[i] != '{',
{
    reveal_strlit("https://tile.openstreetmap.org/{z}/{x}/{y}.png");
    reveal_strlit("https://tile.openstreetmap.org/");
    reveal_strlit("https://wmts.geo.admin.ch/1.0.0/ch.swisstopo.landeskarte-farbe-10/default/current/3857/{z}/{x}/{y}.png");
    reveal_strlit("https://wmts.geo.admin.ch/1.0.0/ch.swisstopo.landeskarte-farbe-10/default/current/3857/");
    reveal_strlit("{z}/{x}/{y}.png");
    assert(t.pattern() =~= t.base() + "{z}/{x}/{y}.png"@);
}

/// The URL of a tile is the base of the template, then zoom level, column
/// and row as decimal numerals with a slash between them, then `.png`.
pub proof fn lemma_url_shape(t: TileSet, tile: TileIndex)
    ensures
        t.url_of(tile) == t.base() + decimal(tile.z as nat) + "/"@ + decimal(tile.x as nat) + "/"@
            + decimal(tile.y as nat) + ".png"@,
{
    let a = t.base();
    let dz = decimal(tile.z as nat);
    let dx = decimal(tile.x as nat);
    let dy = decimal(tile.y as nat);
    let z = "{z}"@;
    let x = "{x}"@;
    let y = "{y}"@;
    let slash = "/"@;
    let png = ".png"@;
    reveal_strlit("{z}");
    reveal_strlit("{x}");
    reveal_strlit("{y}");
    reveal_strlit("/");
    reveal_strlit(".png");
    reveal_strlit("{z}/{x}/{y}.png");
    lemma_pattern_shape(t);
    lemma_decimal_digits(tile.z as nat);
    lemma_decimal_digits(tile.x as nat);
    lemma_decimal_digits(tile.y as nat);
    let r2 = slash + y + png;
    let r1 = slash + x + r2;
    assert("{z}/{x}/{y}.png"@ =~= z + r1);
    assert(t.pattern() =~= a + (z + r1));
    // the zoom level
    lemma_fill_skip(a, z + r1, z, dz);
    lemma_fill_here(z, r1, dz);
    lemma_fill_absent(r1, z, dz, 1);
    let f1 = fill(t.pattern(), z, dz);
    assert(f1 == a + (dz + r1));
    // the column
    let p1 = a + dz + slash;
    assert(f1 =~= p1 + (x + r2));
    lemma_fill_skip(p1, x + r2, x, dx);
    lemma_fill_here(x, r2, dx);
    lemma_fill_absent(r2, x, dx, 1);
    let f2 = fill(f1, x, dx);
    assert(f2 == p1 + (dx + r2));
    // the row
    let p2 = p1 + dx + slash;
    assert(f2 =~= p2 + (y + png));
    lemma_fill_skip(p2, y + png, y, dy);
    lemma_fill_here(y, png, dy);
    lemma_fill_absent(png, y, dy, 1);
    let f3 = fill(f2, y, dy);
    assert(f3 == p2 + (dy + png));
    assert(f3 =~= a + dz + slash + dx + slash + dy + png);
}

} // verus!
