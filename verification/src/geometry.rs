//! Tile space.
//!
//! At zoom level `z` the world is a grid of `2^z` by `2^z` tiles of 256 by
//! 256 pixels. A position in that grid is kept in fixed point: a `u64`
//! whose upper 32 bits are the tile index and whose lower 32 bits are the
//! fraction of the way through that tile.

use vstd::prelude::*;

verus! {

/// Side of a tile in pixels.
pub const TILE_SIZE: u32 = 256;

/// Fixed-point units to a tile.
pub const UNITS_PER_TILE: u64 = 0x1_0000_0000;

/// Fixed-point units to a pixel.
pub const UNITS_PER_PIXEL: u64 = 0x100_0000;

/// Column, row and zoom level of one tile.
#[derive(Copy, Clone, Debug, PartialEq, Eq, Hash, Structural)]
pub struct TileIndex {
    pub x: u32,
    pub y: u32,
    pub z: u32,
}

/// A position in tile space at zoom level `z`, in fixed point.
#[derive(Copy, Clone, Debug, PartialEq, Eq, Structural)]
pub struct TileCoordinate {
    pub x: u64,
    pub y: u64,
    pub z: u32,
}

/// A rectangle in tile space.
#[derive(Copy, Clone, Debug, PartialEq, Eq, Structural)]
pub struct TileBox {
    pub top_left: TileCoordinate,
    pub bottom_right: TileCoordinate,
}

/// A rectangle in tile space together with the point that the picture is
/// centred on, given as its position in tile space at the rectangle's zoom
/// level, and the size of the picture in pixels (width, height).
#[derive(Copy, Clone, Debug, PartialEq, Eq)]
pub struct ConstrainedTileBox {
    pub tile_box: TileBox,
    pub center: TileCoordinate,
    pub inner_size_px: (u32, u32),
}

/// The index of the tile that holds the position `v`.
pub open spec fn floor_tile(v: u64) -> int {
    v as int / UNITS_PER_TILE as int
}

/// The least tile index that is not to the left of the position `v`; no more
/// than `u32::MAX`.
pub open spec fn ceil_tile(v: u64) -> int {
    if v as int % UNITS_PER_TILE as int == 0 {
        floor_tile(v)
    } else if floor_tile(v) >= u32::MAX {
        u32::MAX as int
    } else {
        floor_tile(v) + 1
    }
}

/// The pixel, counted from the edge of the world, that holds the position `v`.
pub open spec fn pixel_of(v: u64) -> int {
    v as int / UNITS_PER_PIXEL as int
}

/// A pixel lies in the tile that its position lies in.
pub proof fn lemma_pixel_in_tile(v: u64)
    ensures
        floor_tile(v) * TILE_SIZE <= pixel_of(v) < (floor_tile(v) + 1) * TILE_SIZE,
        0 <= floor_tile(v) <= u32::MAX,
{
}

/// Of two positions, the one further right has no smaller floor and ceiling.
pub proof fn lemma_tile_monotonic(a: u64, b: u64)
    requires
        a <= b,
    ensures
        floor_tile(a) <= floor_tile(b),
        ceil_tile(a) <= ceil_tile(b),
        floor_tile(a) <= ceil_tile(a),
{
}

impl TileCoordinate {
    /// The position with the given whole tile index and no fraction.
    pub fn at_tile(x: u32, y: u32, z: u32) -> (c: TileCoordinate)
        ensures
            c.x == x * UNITS_PER_TILE,
            c.y == y * UNITS_PER_TILE,
            c.z == z,
            floor_tile(c.x) == x,
            ceil_tile(c.x) == x,
            floor_tile(c.y) == y,
            ceil_tile(c.y) == y,
            pixel_of(c.x) == x * TILE_SIZE,
            pixel_of(c.y) == y * TILE_SIZE,
    {
        TileCoordinate { x: x as u64 * UNITS_PER_TILE, y: y as u64 * UNITS_PER_TILE, z }
    }

    /// The tile that holds this position.
    pub open spec fn tile(self) -> TileIndex {
        TileIndex { x: floor_tile(self.x) as u32, y: floor_tile(self.y) as u32, z: self.z }
    }

    /// The tile that holds this position.
    pub fn containing_tile(&self) -> (t: TileIndex)
        ensures
            t == self.tile(),
    {
        TileIndex { x: tile_floor(self.x), y: tile_floor(self.y), z: self.z }
    }
}

/// The index of the tile that holds the position `v`.
pub fn tile_floor(v: u64) -> (t: u32)
    ensures
        t == floor_tile(v),
{
    (v / UNITS_PER_TILE) as u32
}

/// The least tile index that is not to the left of the position `v`; no more
/// than `u32::MAX`.
pub fn tile_ceil(v: u64) -> (t: u32)
    ensures
        t == ceil_tile(v),
{
    let whole: u64 = v / UNITS_PER_TILE;
    if v % UNITS_PER_TILE == 0 {
        whole as u32
    } else if whole >= u32::MAX as u64 {
        u32::MAX
    } else {
        (whole + 1) as u32
    }
}

impl TileBox {
    /// Both corners lie at one zoom level, and the top-left corner is neither
    /// right of nor below the bottom-right one.
    pub open spec fn wf(self) -> bool {
        &&& self.top_left.z == self.bottom_right.z
        &&& self.top_left.x <= self.bottom_right.x
        &&& self.top_left.y <= self.bottom_right.y
    }

    /// The zoom level at which tiles are fetched.
    pub open spec fn zoom(self) -> u32 {
        self.top_left.z
    }

    pub open spec fn first_column(self) -> int {
        floor_tile(self.top_left.x)
    }

    pub open spec fn last_column(self) -> int {
        ceil_tile(self.bottom_right.x)
    }

    pub open spec fn first_row(self) -> int {
        floor_tile(self.top_left.y)
    }

    pub open spec fn last_row(self) -> int {
        ceil_tile(self.bottom_right.y)
    }

    /// How many columns of tiles cover the rectangle: first and last included.
    pub open spec fn columns(self) -> int {
        if self.first_column() <= self.last_column() {
            self.last_column() - self.first_column() + 1
        } else {
            0
        }
    }

    /// How many rows of tiles cover the rectangle: first and last included.
    pub open spec fn rows(self) -> int {
        if self.first_row() <= self.last_row() {
            self.last_row() - self.first_row() + 1
        } else {
            0
        }
    }

    /// How many tiles cover the rectangle.
    pub open spec fn tile_count(self) -> int {
        self.columns() * self.rows()
    }

    /// `t` is one of the tiles that cover the rectangle.
    pub open spec fn covers(self, t: TileIndex) -> bool {
        &&& t.z == self.zoom()
        &&& self.first_column() <= t.x <= self.last_column()
        &&& self.first_row() <= t.y <= self.last_row()
    }

    /// Column and row of the tile that holds the top-left corner.
    pub fn outer_top_left(&self) -> (t: (u32, u32))
        ensures
            t.0 == self.first_column(),
            t.1 == self.first_row(),
    {
        (tile_floor(self.top_left.x), tile_floor(self.top_left.y))
    }

    /// Column and row of the last tile that the rectangle needs.
    pub fn outer_bottom_right(&self) -> (t: (u32, u32))
        ensures
            t.0 == self.last_column(),
            t.1 == self.last_row(),
    {
        (tile_ceil(self.bottom_right.x), tile_ceil(self.bottom_right.y))
    }

    /// How many columns and rows of tiles cover the rectangle.
    pub fn span(&self) -> (s: (u64, u64))
        ensures
            s.0 == self.columns(),
            s.1 == self.rows(),
    {
        let (x0, y0) = self.outer_top_left();
        let (x1, y1) = self.outer_bottom_right();
        let columns: u64 = if x0 <= x1 {
            (x1 - x0) as u64 + 1
        } else {
            0
        };
        let rows: u64 = if y0 <= y1 {
            (y1 - y0) as u64 + 1
        } else {
            0
        };
        (columns, rows)
    }
}

/// A well-formed rectangle is covered by at least one tile.
pub proof fn lemma_at_least_one_tile(b: TileBox)
    requires
        b.wf(),
    ensures
        b.columns() >= 1,
        b.rows() >= 1,
        b.tile_count() >= 1,
{
    lemma_tile_monotonic(b.top_left.x, b.bottom_right.x);
    lemma_tile_monotonic(b.top_left.y, b.bottom_right.y);
    assert(b.columns() * b.rows() >= 1) by (nonlinear_arith)
        requires
            b.columns() >= 1,
            b.rows() >= 1,
    ;
}

impl ConstrainedTileBox {
    /// Column of the centre pixel, counted from the left edge of the first tile.
    pub open spec fn center_px_x(self) -> int {
        pixel_of(self.center.x) - self.tile_box.first_column() * TILE_SIZE
    }

    /// Row of the centre pixel, counted from the top edge of the first tile.
    pub open spec fn center_px_y(self) -> int {
        pixel_of(self.center.y) - self.tile_box.first_row() * TILE_SIZE
    }

    /// Left edge of the picture, counted in pixels from the left edge of the
    /// first tile: half the picture's width left of the centre.
    pub open spec fn crop_left(self) -> int {
        self.center_px_x() - self.inner_size_px.0 as int / 2
    }

    /// Top edge of the picture, counted in pixels from the top edge of the
    /// first tile: half the picture's height above the centre.
    pub open spec fn crop_top(self) -> int {
        self.center_px_y() - self.inner_size_px.1 as int / 2
    }

    /// Left and top edge of the picture in pixels, counted from the top-left
    /// corner of the first tile. Either is negative where the picture
    /// reaches beyond that corner.
    pub fn crop_origin(&self) -> (origin: (i64, i64))
        ensures
            origin.0 == self.crop_left(),
            origin.1 == self.crop_top(),
    {
        let (x0, y0) = self.tile_box.outer_top_left();
        let cx: i64 = (self.center.x / UNITS_PER_PIXEL) as i64 - (x0 as i64) * (TILE_SIZE as i64);
        let cy: i64 = (self.center.y / UNITS_PER_PIXEL) as i64 - (y0 as i64) * (TILE_SIZE as i64);
        (cx - (self.inner_size_px.0 / 2) as i64, cy - (self.inner_size_px.1 / 2) as i64)
    }
}

} // verus!
