//! Assembling a picture from tiles.
//!
//! The tiles of a batch are decoded and copied onto one canvas, each at the
//! place that its index gives it. A window of the requested size, centred on
//! the requested point, is cut out of the canvas and encoded as a PNG file.

use vstd::prelude::*;
use std::collections::HashSet;
use crate::batch::{as_map, distinct, holds, lemma_lookup, lemma_take_next, position, TileBatch};
use crate::codec::{decode, decoded_image, encode, encoded_png};
use crate::geometry::{
    floor_tile,
    lemma_pixel_in_tile,
    pixel_of,
    ConstrainedTileBox,
    TileBox,
    TileIndex,
    TILE_SIZE,
};
use crate::raster::{buffer_len, laid_out, Raster};

verus! {

/// Length of one row of a tile in bytes.
pub const TILE_STRIDE: u32 = 1024;

/// The most tiles that a canvas can hold side by side: with one more its
/// width in pixels would no longer fit a `u32`.
pub const MAX_TILES_PER_SIDE: usize = 0xff_ffff;

/// What can be wrong with the geometry of a mosaic.
#[derive(Copy, Clone, Debug, PartialEq, Eq, Structural)]
pub enum GeometryFault {
    /// The batch holds tiles in `columns` columns and `rows` rows, which is
    /// not what the rectangle spans.
    CanvasMismatch { columns: u64, rows: u64 },
    /// The canvas would be too large to address.
    CanvasTooLarge,
    /// The tile does not lie inside the canvas.
    TileOutsideCanvas { tile: TileIndex },
    /// The picture, with its top-left corner `left` pixels right of and
    /// `top` pixels below the canvas's corner, does not lie inside the
    /// canvas.
    CropOutsideCanvas { left: i64, top: i64 },
}

/// Why no picture was assembled.
#[derive(Copy, Clone, Debug, PartialEq, Eq, Structural)]
pub enum MosaicError {
    /// The bytes of the tile are not an image of 256 by 256 pixels.
    Decode { tile: TileIndex },
    /// Tiles, canvas or picture do not fit together.
    Geometry { fault: GeometryFault },
    /// The picture could not be encoded.
    Encode,
}

/// The columns in which `tiles` holds a tile.
pub open spec fn columns_of(tiles: Map<TileIndex, Seq<u8>>) -> Set<u32> {
    Set::new(|c: u32| exists|t: TileIndex| #[trigger] tiles.contains_key(t) && t.x == c)
}

/// The rows in which `tiles` holds a tile.
pub open spec fn rows_of(tiles: Map<TileIndex, Seq<u8>>) -> Set<u32> {
    Set::new(|r: u32| exists|t: TileIndex| #[trigger] tiles.contains_key(t) && t.y == r)
}

/// Width and height of the canvas in pixels: 256 for each column and each
/// row in which the batch holds a tile. It is an error where the batch
/// does not hold as many columns and rows as the rectangle spans, or where
/// the canvas would be too large.
pub open spec fn canvas_dims(b: TileBox, tiles: Map<TileIndex, Seq<u8>>) -> Result<
    (u32, u32),
    MosaicError,
> {
    let nx = columns_of(tiles).len() as int;
    let ny = rows_of(tiles).len() as int;
    if nx != b.columns() || ny != b.rows() {
        Err(
            MosaicError::Geometry {
                fault: GeometryFault::CanvasMismatch { columns: nx as u64, rows: ny as u64 },
            },
        )
    } else if nx > MAX_TILES_PER_SIDE || ny > MAX_TILES_PER_SIDE || 4 * (nx * TILE_SIZE) * (ny
        * TILE_SIZE) > usize::MAX {
        Err(MosaicError::Geometry { fault: GeometryFault::CanvasTooLarge })
    } else {
        Ok(((nx * TILE_SIZE) as u32, (ny * TILE_SIZE) as u32))
    }
}

/// The samples of the tile image that `bytes` holds: what the codec reads
/// out of them, where that is an image of 256 by 256 pixels.
pub open spec fn tile_image(bytes: Seq<u8>) -> Option<Seq<u8>> {
    match decoded_image(bytes) {
        Some((w, h, s)) => if w == TILE_SIZE && h == TILE_SIZE {
            Some(s)
        } else {
            None
        },
        None => None,
    }
}

/// The tile `t` lies inside a canvas of `w` by `h` pixels whose top-left
/// tile has column `origin.0` and row `origin.1`.
pub open spec fn tile_inside(origin: (u32, u32), w: u32, h: u32, t: TileIndex) -> bool {
    &&& origin.0 <= t.x
    &&& origin.1 <= t.y
    &&& (t.x - origin.0 + 1) * TILE_SIZE <= w
    &&& (t.y - origin.1 + 1) * TILE_SIZE <= h
}

/// The byte at offset `off` of row `row` of the canvas belongs to tile `t`.
pub open spec fn under(origin: (u32, u32), t: TileIndex, row: int, off: int) -> bool {
    origin.0 + off / (TILE_STRIDE as int) == t.x && origin.1 + row / (TILE_SIZE as int) == t.y
}

/// What is wrong with one tile, if anything: its bytes are no tile image,
/// or it does not lie inside the canvas.
pub open spec fn tile_fault(origin: (u32, u32), w: u32, h: u32, t: TileIndex, bytes: Seq<u8>) -> Option<
    MosaicError,
> {
    if tile_image(bytes) is None {
        Some(MosaicError::Decode { tile: t })
    } else if !tile_inside(origin, w, h, t) {
        Some(MosaicError::Geometry { fault: GeometryFault::TileOutsideCanvas { tile: t } })
    } else {
        None
    }
}

/// The fault of the first entry that has one.
pub open spec fn first_fault(
    origin: (u32, u32),
    w: u32,
    h: u32,
    entries: Seq<(TileIndex, Seq<u8>)>,
) -> Option<MosaicError>
    decreases entries.len(),
{
    if entries.len() == 0 {
        None
    } else {
        match first_fault(origin, w, h, entries.drop_last()) {
            Some(e) => Some(e),
            None => tile_fault(origin, w, h, entries.last().0, entries.last().1),
        }
    }
}

/// Why no canvas can be composed from the entries, if so: the error of the
/// canvas's size, or else the fault of the first entry that has one.
pub open spec fn compose_error(b: TileBox, entries: Seq<(TileIndex, Seq<u8>)>) -> Option<
    MosaicError,
> {
    match canvas_dims(b, as_map(entries)) {
        Err(e) => Some(e),
        Ok((w, h)) => first_fault(
            (b.first_column() as u32, b.first_row() as u32),
            w,
            h,
            entries,
        ),
    }
}

/// The tile to which the byte at offset `off` of row `row` of the canvas
/// belongs.
pub open spec fn tile_under(origin: (u32, u32), zoom: u32, row: int, off: int) -> TileIndex {
    TileIndex {
        x: (origin.0 + off / (TILE_STRIDE as int)) as u32,
        y: (origin.1 + row / (TILE_SIZE as int)) as u32,
        z: zoom,
    }
}

/// The byte at offset `off` of row `row` of the canvas: that of the tile
/// to which it belongs, or zero where the batch does not hold that tile.
pub open spec fn mosaic_byte(
    origin: (u32, u32),
    zoom: u32,
    tiles: Map<TileIndex, Seq<u8>>,
    row: int,
    off: int,
) -> u8 {
    let t = tile_under(origin, zoom, row, off);
    if tiles.contains_key(t) && tile_image(tiles[t]) is Some {
        tile_image(tiles[t]).unwrap()[(row % (TILE_SIZE as int)) * TILE_STRIDE + off % (
        TILE_STRIDE as int)]
    } else {
        0
    }
}

/// The buffer of the canvas of `w` by `h` pixels that the tiles make up.
pub open spec fn mosaic(
    origin: (u32, u32),
    zoom: u32,
    tiles: Map<TileIndex, Seq<u8>>,
    w: u32,
    h: u32,
) -> Seq<u8> {
    laid_out(w, h, |row: int, off: int| mosaic_byte(origin, zoom, tiles, row, off))
}

/// The buffer of the picture: the window of `w` by `h` pixels of the canvas
/// whose top-left corner is the pixel `(left, top)`.
pub open spec fn picture(
    origin: (u32, u32),
    zoom: u32,
    tiles: Map<TileIndex, Seq<u8>>,
    left: u32,
    top: u32,
    w: u32,
    h: u32,
) -> Seq<u8> {
    laid_out(
        w,
        h,
        |row: int, off: int| mosaic_byte(origin, zoom, tiles, top + row, 4 * left + off),
    )
}

/// Where the picture lies on a canvas of `w` by `h` pixels: the pixel of
/// its top-left corner. It is an error where the picture does not lie
/// inside the canvas.
pub open spec fn window_of(sized: ConstrainedTileBox, w: u32, h: u32) -> Result<
    (u32, u32),
    MosaicError,
> {
    let left = sized.crop_left();
    let top = sized.crop_top();
    if left < 0 || top < 0 || left + sized.inner_size_px.0 > w || top + sized.inner_size_px.1
        > h {
        Err(
            MosaicError::Geometry {
                fault: GeometryFault::CropOutsideCanvas { left: left as i64, top: top as i64 },
            },
        )
    } else {
        Ok((left as u32, top as u32))
    }
}

/// The PNG file of the picture, or why there is none.
pub open spec fn assembled(
    sized: ConstrainedTileBox,
    zoom: u32,
    entries: Seq<(TileIndex, Seq<u8>)>,
) -> Result<Seq<u8>, MosaicError> {
    let b = sized.tile_box;
    let origin = (b.first_column() as u32, b.first_row() as u32);
    match compose_error(b, entries) {
        Some(e) => Err(e),
        None => {
            let (w, h) = canvas_dims(b, as_map(entries)).unwrap();
            match window_of(sized, w, h) {
                Err(e) => Err(e),
                Ok((left, top)) => match encoded_png(
                    sized.inner_size_px.0,
                    sized.inner_size_px.1,
                    picture(
                        origin,
                        zoom,
                        as_map(entries),
                        left,
                        top,
                        sized.inner_size_px.0,
                        sized.inner_size_px.1,
                    ),
                ) {
                    Some(png) => Ok(png),
                    None => Err(MosaicError::Encode),
                },
            }
        },
    }
}

/// The columns of the first `n` entries.
pub open spec fn prefix_columns(entries: Seq<(TileIndex, Seq<u8>)>, n: int) -> Set<u32> {
    Set::new(|c: u32| exists|j: int| 0 <= j < n && (#[trigger] entries[j]).0.x == c)
}

/// The rows of the first `n` entries.
pub open spec fn prefix_rows(entries: Seq<(TileIndex, Seq<u8>)>, n: int) -> Set<u32> {
    Set::new(|r: u32| exists|j: int| 0 <= j < n && (#[trigger] entries[j]).0.y == r)
}

proof fn lemma_prefix_step(entries: Seq<(TileIndex, Seq<u8>)>, n: int)
    requires
        0 <= n < entries.len(),
    ensures
        prefix_columns(entries, n + 1) == prefix_columns(entries, n).insert(entries[n].0.x),
        prefix_rows(entries, n + 1) == prefix_rows(entries, n).insert(entries[n].0.y),
        prefix_columns(entries, 0) == Set::<u32>::empty(),
        prefix_rows(entries, 0) == Set::<u32>::empty(),
{
    assert(prefix_columns(entries, n + 1) =~= prefix_columns(entries, n).insert(entries[n].0.x));
    assert(prefix_rows(entries, n + 1) =~= prefix_rows(entries, n).insert(entries[n].0.y));
    assert(prefix_columns(entries, 0) =~= Set::<u32>::empty());
    assert(prefix_rows(entries, 0) =~= Set::<u32>::empty());
}

proof fn lemma_prefix_all(entries: Seq<(TileIndex, Seq<u8>)>)
    ensures
        prefix_columns(entries, entries.len() as int) == columns_of(as_map(entries)),
        prefix_rows(entries, entries.len() as int) == rows_of(as_map(entries)),
        prefix_columns(entries, 0) == Set::<u32>::empty(),
        prefix_rows(entries, 0) == Set::<u32>::empty(),
{
    let n = entries.len() as int;
    let tiles = as_map(entries);
    assert forall|c: u32| prefix_columns(entries, n).contains(c) == columns_of(tiles).contains(
        c,
    ) by {
        if prefix_columns(entries, n).contains(c) {
            let j = choose|j: int| 0 <= j < n && (#[trigger] entries[j]).0.x == c;
            assert(holds(entries, entries[j].0));
            assert(tiles.contains_key(entries[j].0));
        }
        if columns_of(tiles).contains(c) {
            let t = choose|t: TileIndex| #[trigger] tiles.contains_key(t) && t.x == c;
            let p = position(entries, t);
            assert(entries[p].0.x == c);
        }
    }
    assert forall|r: u32| prefix_rows(entries, n).contains(r) == rows_of(tiles).contains(r) by {
        if prefix_rows(entries, n).contains(r) {
            let j = choose|j: int| 0 <= j < n && (#[trigger] entries[j]).0.y == r;
            assert(holds(entries, entries[j].0));
            assert(tiles.contains_key(entries[j].0));
        }
        if rows_of(tiles).contains(r) {
            let t = choose|t: TileIndex| #[trigger] tiles.contains_key(t) && t.y == r;
            let p = position(entries, t);
            assert(entries[p].0.y == r);
        }
    }
    assert(prefix_columns(entries, n) =~= columns_of(tiles));
    assert(prefix_rows(entries, n) =~= rows_of(tiles));
    assert(prefix_columns(entries, 0) =~= Set::<u32>::empty());
    assert(prefix_rows(entries, 0) =~= Set::<u32>::empty());
}

/// Width and height of the canvas for the tiles of `batch`, which are to
/// cover `tile_box`.
pub fn canvas_size(tile_box: &TileBox, batch: &TileBatch) -> (out: Result<(u32, u32), MosaicError>)
    requires
        batch.wf(),
    ensures
        out == canvas_dims(*tile_box, batch@),
{
    broadcast use vstd::std_specs::hash::group_hash_axioms;

    let mut columns: HashSet<u32> = HashSet::new();
    let mut rows: HashSet<u32> = HashSet::new();
    let n = batch.len();
    let mut i: usize = 0;
    proof {
        lemma_prefix_all(batch.entries());
    }
    while i < n
        invariant
            i <= n,
            n == batch.entries().len(),
            columns@ == prefix_columns(batch.entries(), i as int),
            rows@ == prefix_rows(batch.entries(), i as int),
        decreases n - i,
    {
        let e = batch.entry(i);
        proof {
            lemma_prefix_step(batch.entries(), i as int);
        }
        columns.insert(e.index.x);
        rows.insert(e.index.y);
        i += 1;
    }
    let nx = columns.len();
    let ny = rows.len();
    let (span_x, span_y) = tile_box.span();
    if nx as u64 != span_x || ny as u64 != span_y {
        return Err(
            MosaicError::Geometry {
                fault: GeometryFault::CanvasMismatch { columns: nx as u64, rows: ny as u64 },
            },
        );
    }
    if nx > MAX_TILES_PER_SIDE || ny > MAX_TILES_PER_SIDE {
        return Err(MosaicError::Geometry { fault: GeometryFault::CanvasTooLarge });
    }
    let w: u32 = (nx * 256) as u32;
    let h: u32 = (ny * 256) as u32;
    if buffer_len(w, h) > usize::MAX as u128 {
        return Err(MosaicError::Geometry { fault: GeometryFault::CanvasTooLarge });
    }
    Ok((w, h))
}

/// Copies a decoded tile onto the canvas, at the place that its index
/// gives it. `origin` is column and row of the canvas's top-left tile.
/// `image` is what decoding the tile's bytes gave. On an error the canvas
/// stays as it was.
pub fn place_tile(
    canvas: &mut Raster,
    origin: (u32, u32),
    tile: TileIndex,
    image: Option<Raster>,
) -> (out: Result<(), MosaicError>)
    requires
        old(canvas).wf(),
        image matches Some(r) ==> r.wf(),
    ensures
        final(canvas).wf(),
        final(canvas).w() == old(canvas).w(),
        final(canvas).h() == old(canvas).h(),
        out == (if !(image matches Some(r) && r.w() == TILE_SIZE && r.h() == TILE_SIZE) {
            Err::<(), MosaicError>(MosaicError::Decode { tile })
        } else if !tile_inside(origin, old(canvas).w(), old(canvas).h(), tile) {
            Err(MosaicError::Geometry { fault: GeometryFault::TileOutsideCanvas { tile } })
        } else {
            Ok(())
        }),
        out is Ok ==> forall|row: int, off: int|
            0 <= row < old(canvas).h() && 0 <= off < old(canvas).stride() ==> #[trigger] final(canvas).byte(row, off)
                == (if under(origin, tile, row, off) {
                image.unwrap().byte(row % (TILE_SIZE as int), off % (TILE_STRIDE as int))
            } else {
                old(canvas).byte(row, off)
            }),
        out is Err ==> final(canvas).samples() == old(canvas).samples(),
{
    let r = match image {
        Some(r) => r,
        None => {
            return Err(MosaicError::Decode { tile });
        },
    };
    if r.width() != TILE_SIZE || r.height() != TILE_SIZE {
        return Err(MosaicError::Decode { tile });
    }
    if tile.x < origin.0 || tile.y < origin.1 {
        return Err(MosaicError::Geometry { fault: GeometryFault::TileOutsideCanvas { tile } });
    }
    let px: u64 = (tile.x - origin.0) as u64 * 256;
    let py: u64 = (tile.y - origin.1) as u64 * 256;
    if px + 256 > canvas.width() as u64 || py + 256 > canvas.height() as u64 {
        return Err(MosaicError::Geometry { fault: GeometryFault::TileOutsideCanvas { tile } });
    }
    let ghost before = *canvas;
    let done = canvas.blit(&r, px as u32, py as u32);
    proof {
        assert(done);
        assert forall|row: int, off: int|
            0 <= row < before.h() && 0 <= off < before.stride() implies #[trigger] canvas.byte(
            row,
            off,
        ) == (if under(origin, tile, row, off) {
            r.byte(row % (TILE_SIZE as int), off % (TILE_STRIDE as int))
        } else {
            before.byte(row, off)
        }) by {
            assert(canvas.byte(row, off) == before.blit_byte(&r, px as u32, py as u32, row, off));
            assert(Raster::covered(&r, px as u32, py as u32, row, off) == under(
                origin,
                tile,
                row,
                off,
            ));
        }
    }
    Ok(())
}

/// An entry list without a fault has no faulty entry, and the other way
/// round.
pub proof fn lemma_first_fault(
    origin: (u32, u32),
    w: u32,
    h: u32,
    entries: Seq<(TileIndex, Seq<u8>)>,
)
    ensures
        first_fault(origin, w, h, entries) is None <==> forall|i: int|
            0 <= i < entries.len() ==> tile_fault(
                origin,
                w,
                h,
                (#[trigger] entries[i]).0,
                entries[i].1,
            ) is None,
    decreases entries.len(),
{
    if entries.len() > 0 {
        let front = entries.drop_last();
        lemma_first_fault(origin, w, h, front);
        if first_fault(origin, w, h, entries) is None {
            assert forall|i: int| 0 <= i < entries.len() implies tile_fault(
                origin,
                w,
                h,
                (#[trigger] entries[i]).0,
                entries[i].1,
            ) is None by {
                if i < front.len() {
                    assert(front[i] == entries[i]);
                }
            }
        }
        if forall|i: int|
            0 <= i < entries.len() ==> tile_fault(
                origin,
                w,
                h,
                (#[trigger] entries[i]).0,
                entries[i].1,
            ) is None {
            assert forall|i: int| 0 <= i < front.len() implies tile_fault(
                origin,
                w,
                h,
                (#[trigger] front[i]).0,
                front[i].1,
            ) is None by {
                assert(front[i] == entries[i]);
            }
            assert(entries.last() == entries[entries.len() - 1]);
        }
    }
}

/// Decodes the tiles of `batch` and copies each onto a canvas at the place
/// that its index gives it.
pub fn compose(tile_box: &TileBox, batch: &TileBatch) -> (out: Result<Raster, MosaicError>)
    requires
        batch.wf(),
    ensures
        match out {
            Ok(canvas) => {
                &&& compose_error(*tile_box, batch.entries()) is None
                &&& canvas.wf()
                &&& canvas_dims(*tile_box, batch@) == Ok::<(u32, u32), MosaicError>(
                    (canvas.w(), canvas.h()),
                )
                &&& canvas.samples() == mosaic(
                    (tile_box.first_column() as u32, tile_box.first_row() as u32),
                    batch.zoom_level(),
                    batch@,
                    canvas.w(),
                    canvas.h(),
                )
            },
            Err(e) => compose_error(*tile_box, batch.entries()) == Some(e),
        },
{
    let (w, h) = match canvas_size(tile_box, batch) {
        Ok(size) => size,
        Err(e) => {
            return Err(e);
        },
    };
    let origin = tile_box.outer_top_left();
    let mut canvas = match Raster::blank(w, h) {
        Some(c) => c,
        None => {
            proof {
                assert(4 * w * h == 4 * ((w / 256) * 256) * ((h / 256) * 256));
            }
            return Err(MosaicError::Geometry { fault: GeometryFault::CanvasTooLarge });
        },
    };
    let ghost entries = batch.entries();
    let ghost zoom = batch.zoom_level();
    let n = batch.len();
    let mut i: usize = 0;
    proof {
        assert(entries.take(0) =~= Seq::<(TileIndex, Seq<u8>)>::empty());
        assert(as_map(entries.take(0)) =~= Map::<TileIndex, Seq<u8>>::empty());
    }
    while i < n
        invariant
            i <= n,
            n == entries.len(),
            entries == batch.entries(),
            zoom == batch.zoom_level(),
            batch.wf(),
            canvas.wf(),
            canvas.w() == w,
            canvas.h() == h,
            origin.0 == tile_box.first_column(),
            origin.1 == tile_box.first_row(),
            canvas_dims(*tile_box, batch@) == Ok::<(u32, u32), MosaicError>((w, h)),
            first_fault(origin, w, h, entries.take(i as int)) is None,
            forall|row: int, off: int|
                0 <= row < h && 0 <= off < 4 * w ==> #[trigger] canvas.byte(row, off)
                    == mosaic_byte(origin, zoom, as_map(entries.take(i as int)), row, off),
        decreases n - i,
    {
        let e = batch.entry(i);
        let image = decode(e.bytes.as_slice());
        let ghost before = canvas;
        let ghost done = entries.take(i as int);
        let ghost next = entries.take(i + 1);
        proof {
            lemma_take_next(entries, i as int);
            assert(next.drop_last() =~= done);
            assert(next.last() == entries[i as int]);
        }
        match place_tile(&mut canvas, origin, e.index, image) {
            Ok(()) => {
                proof {
                    let t = e.index;
                    let r = image.unwrap();
                    assert(tile_image(e.bytes@) == Some(r.samples()));
                    assert(tile_fault(origin, w, h, t, e.bytes@) is None);
                    assert forall|row: int, off: int|
                        0 <= row < h && 0 <= off < 4 * w implies #[trigger] canvas.byte(row, off)
                        == mosaic_byte(origin, zoom, as_map(next), row, off) by {
                        let u = tile_under(origin, zoom, row, off);
                        assert(before.byte(row, off) == mosaic_byte(
                            origin,
                            zoom,
                            as_map(done),
                            row,
                            off,
                        ));
                        if under(origin, t, row, off) {
                            assert(u == t);
                            assert(r.byte(row % 256, off % 1024) == r.samples()[(row % 256)
                                * 1024 + off % 1024]);
                        } else {
                            assert(u != t);
                        }
                    }
                }
            },
            Err(err) => {
                proof {
                    assert(tile_fault(origin, w, h, e.index, e.bytes@) == Some(err));
                    lemma_later_fault(origin, w, h, entries, i as int);
                }
                return Err(err);
            },
        }
        i += 1;
    }
    proof {
        assert(entries.take(n as int) =~= entries);
        canvas.lemma_laid_out(|row: int, off: int| mosaic_byte(origin, zoom, batch@, row, off));
    }
    Ok(canvas)
}

/// Where the first `i` entries have no fault, the first fault of the whole
/// list is that of the first faulty entry from `i` on.
pub proof fn lemma_later_fault(
    origin: (u32, u32),
    w: u32,
    h: u32,
    entries: Seq<(TileIndex, Seq<u8>)>,
    i: int,
)
    requires
        0 <= i < entries.len(),
        first_fault(origin, w, h, entries.take(i)) is None,
        tile_fault(origin, w, h, entries[i].0, entries[i].1) is Some,
    ensures
        first_fault(origin, w, h, entries) == tile_fault(origin, w, h, entries[i].0, entries[i].1),
    decreases entries.len() - i,
{
    let next = entries.take(i + 1);
    assert(next.drop_last() =~= entries.take(i));
    assert(next.last() == entries[i]);
    assert(first_fault(origin, w, h, next) == tile_fault(origin, w, h, entries[i].0, entries[i].1));
    lemma_fault_stays(origin, w, h, entries, i + 1);
}

/// A fault among the first `k` entries is the first fault of the whole list.
pub proof fn lemma_fault_stays(
    origin: (u32, u32),
    w: u32,
    h: u32,
    entries: Seq<(TileIndex, Seq<u8>)>,
    k: int,
)
    requires
        0 <= k <= entries.len(),
        first_fault(origin, w, h, entries.take(k)) is Some,
    ensures
        first_fault(origin, w, h, entries) == first_fault(origin, w, h, entries.take(k)),
    decreases entries.len() - k,
{
    if k == entries.len() {
        assert(entries.take(k) =~= entries);
    } else {
        let next = entries.take(k + 1);
        assert(next.drop_last() =~= entries.take(k));
        lemma_fault_stays(origin, w, h, entries, k + 1);
    }
}

/// Where the picture lies on a canvas of `w` by `h` pixels.
pub fn crop_window(sized: &ConstrainedTileBox, w: u32, h: u32) -> (out: Result<
    (u32, u32),
    MosaicError,
>)
    ensures
        out == window_of(*sized, w, h),
{
    let (left, top) = sized.crop_origin();
    if left < 0 || top < 0 || left + sized.inner_size_px.0 as i64 > w as i64 || top
        + sized.inner_size_px.1 as i64 > h as i64 {
        return Err(
            MosaicError::Geometry { fault: GeometryFault::CropOutsideCanvas { left, top } },
        );
    }
    Ok((left as u32, top as u32))
}

/// Assembles the picture that `sized` asks for from the tiles of `batch`
/// and encodes it as a PNG file.
pub fn assemble(sized: &ConstrainedTileBox, batch: &TileBatch) -> (out: Result<
    Vec<u8>,
    MosaicError,
>)
    requires
        batch.wf(),
    ensures
        match out {
            Ok(png) => assembled(*sized, batch.zoom_level(), batch.entries()) == Ok::<
                Seq<u8>,
                MosaicError,
            >(png@),
            Err(e) => assembled(*sized, batch.zoom_level(), batch.entries()) == Err::<
                Seq<u8>,
                MosaicError,
            >(e),
        },
{
    let canvas = match compose(&sized.tile_box, batch) {
        Ok(c) => c,
        Err(e) => {
            return Err(e);
        },
    };
    let (left, top) = match crop_window(sized, canvas.width(), canvas.height()) {
        Ok(at) => at,
        Err(e) => {
            return Err(e);
        },
    };
    let cut = match canvas.crop(left, top, sized.inner_size_px.0, sized.inner_size_px.1) {
        Some(c) => c,
        None => {
            proof {
                assert(false);
            }
            return Err(MosaicError::Encode);
        },
    };
    proof {
        let origin = (sized.tile_box.first_column() as u32, sized.tile_box.first_row() as u32);
        let zoom = batch.zoom_level();
        lemma_mosaic_bytes(&canvas, origin, zoom, batch@);
        cut.lemma_laid_out(
            |row: int, off: int| mosaic_byte(origin, zoom, batch@, top + row, 4 * left + off),
        );
    }
    match encode(&cut) {
        Some(png) => Ok(png),
        None => Err(MosaicError::Encode),
    }
}

/// The bytes of a canvas that holds a mosaic are those of the mosaic.
pub proof fn lemma_mosaic_bytes(
    canvas: &Raster,
    origin: (u32, u32),
    zoom: u32,
    tiles: Map<TileIndex, Seq<u8>>,
)
    requires
        canvas.wf(),
        canvas.samples() == mosaic(origin, zoom, tiles, canvas.w(), canvas.h()),
    ensures
        forall|row: int, off: int|
            0 <= row < canvas.h() && 0 <= off < canvas.stride() ==> #[trigger] canvas.byte(row, off)
                == mosaic_byte(origin, zoom, tiles, row, off),
{
    let stride = canvas.stride();
    assert forall|row: int, off: int|
        0 <= row < canvas.h() && 0 <= off < canvas.stride() implies #[trigger] canvas.byte(row, off)
        == mosaic_byte(origin, zoom, tiles, row, off) by {
        let i = row * stride + off;
        crate::raster::lemma_offset_in_bounds(row, off, canvas.h() as int, stride);
        vstd::arithmetic::div_mod::lemma_fundamental_div_mod_converse(i, stride, row, off);
    }
}

/// A picture that was assembled has exactly the size that was asked for:
/// the file is the encoding of a raster of `inner_size_px.0` by
/// `inner_size_px.1` pixels, cut out of the mosaic of the batch's tiles.
pub proof fn lemma_picture_has_requested_size(
    sized: ConstrainedTileBox,
    zoom: u32,
    entries: Seq<(TileIndex, Seq<u8>)>,
)
    requires
        assembled(sized, zoom, entries) is Ok,
    ensures
        exists|samples: Seq<u8>|
            samples.len() == 4 * sized.inner_size_px.0 * sized.inner_size_px.1 && #[trigger] encoded_png(
                sized.inner_size_px.0,
                sized.inner_size_px.1,
                samples,
            ) == Some(assembled(sized, zoom, entries).unwrap()),
{
    let b = sized.tile_box;
    let origin = (b.first_column() as u32, b.first_row() as u32);
    let (w, h) = canvas_dims(b, as_map(entries)).unwrap();
    let (left, top) = window_of(sized, w, h).unwrap();
    let pw = sized.inner_size_px.0;
    let ph = sized.inner_size_px.1;
    let samples = picture(origin, zoom, as_map(entries), left, top, pw, ph);
    assert(ph * (4 * pw) == 4 * pw * ph) by (nonlinear_arith);
    assert(samples.len() == 4 * pw * ph);
    assert(encoded_png(pw, ph, samples) == Some(assembled(sized, zoom, entries).unwrap()));
}

/// Two lists of distinct entries that hold the same entries, in whatever
/// order, stand for the same map.
pub proof fn lemma_same_entries_same_map(
    a: Seq<(TileIndex, Seq<u8>)>,
    c: Seq<(TileIndex, Seq<u8>)>,
)
    requires
        distinct(a),
        distinct(c),
        forall|e: (TileIndex, Seq<u8>)| a.contains(e) <==> c.contains(e),
    ensures
        as_map(a) == as_map(c),
{
    assert forall|t: TileIndex| holds(a, t) == holds(c, t) by {
        if holds(a, t) {
            let i = position(a, t);
            assert(a.contains(a[i]));
            let j = choose|j: int| 0 <= j < c.len() && c[j] == a[i];
            assert(c[j].0 == t);
        }
        if holds(c, t) {
            let i = position(c, t);
            assert(c.contains(c[i]));
            let j = choose|j: int| 0 <= j < a.len() && a[j] == c[i];
            assert(a[j].0 == t);
        }
    }
    assert forall|t: TileIndex| holds(a, t) implies as_map(a)[t] == as_map(c)[t] by {
        let i = position(a, t);
        lemma_lookup(a, i);
        assert(a.contains(a[i]));
        let j = choose|j: int| 0 <= j < c.len() && c[j] == a[i];
        lemma_lookup(c, j);
    }
    assert(as_map(a) =~= as_map(c));
}

/// The order in which the tiles of a batch arrived does not show in the
/// mosaic. Of two lists of distinct entries that hold the same entries,
/// either both can be composed or neither; the canvas, of whatever size,
/// and the picture made from one are, byte for byte, those made from the
/// other.
pub proof fn lemma_placement_order_independent(
    sized: ConstrainedTileBox,
    zoom: u32,
    a: Seq<(TileIndex, Seq<u8>)>,
    c: Seq<(TileIndex, Seq<u8>)>,
    w: u32,
    h: u32,
)
    requires
        distinct(a),
        distinct(c),
        forall|e: (TileIndex, Seq<u8>)| a.contains(e) <==> c.contains(e),
    ensures
        as_map(a) == as_map(c),
        compose_error(sized.tile_box, a) is None <==> compose_error(sized.tile_box, c) is None,
        mosaic(
                (sized.tile_box.first_column() as u32, sized.tile_box.first_row() as u32),
                zoom,
                as_map(a),
                w,
                h,
            ) == mosaic(
                (sized.tile_box.first_column() as u32, sized.tile_box.first_row() as u32),
                zoom,
                as_map(c),
                w,
                h,
            ),
        assembled(sized, zoom, a) is Ok <==> assembled(sized, zoom, c) is Ok,
        assembled(sized, zoom, a) is Ok ==> assembled(sized, zoom, a) == assembled(sized, zoom, c),
{
    lemma_same_entries_same_map(a, c);
    let b = sized.tile_box;
    let origin = (b.first_column() as u32, b.first_row() as u32);
    if canvas_dims(b, as_map(a)) is Ok {
        let (cw, ch) = canvas_dims(b, as_map(a)).unwrap();
        lemma_first_fault(origin, cw, ch, a);
        lemma_first_fault(origin, cw, ch, c);
        if first_fault(origin, cw, ch, a) is None {
            assert forall|j: int| 0 <= j < c.len() implies tile_fault(
                origin,
                cw,
                ch,
                (#[trigger] c[j]).0,
                c[j].1,
            ) is None by {
                assert(c.contains(c[j]));
                let i = choose|i: int| 0 <= i < a.len() && a[i] == c[j];
                assert(tile_fault(origin, cw, ch, a[i].0, a[i].1) is None);
            }
        }
        if first_fault(origin, cw, ch, c) is None {
            assert forall|j: int| 0 <= j < a.len() implies tile_fault(
                origin,
                cw,
                ch,
                (#[trigger] a[j]).0,
                a[j].1,
            ) is None by {
                assert(a.contains(a[j]));
                let i = choose|i: int| 0 <= i < c.len() && c[i] == a[j];
                assert(tile_fault(origin, cw, ch, c[i].0, c[i].1) is None);
            }
        }
    }
}

/// The byte at offset `off` of row `row` of the picture is the byte of the
/// canvas at the same place of the window.
#[verifier::spinoff_prover]
pub proof fn lemma_picture_byte(
    origin: (u32, u32),
    zoom: u32,
    tiles: Map<TileIndex, Seq<u8>>,
    left: u32,
    top: u32,
    w: u32,
    h: u32,
    row: int,
    off: int,
)
    requires
        0 <= row < h,
        0 <= off < 4 * w,
    ensures
        picture(origin, zoom, tiles, left, top, w, h).len() == h * (4 * w),
        0 <= row * (4 * w) + off < h * (4 * w),
        picture(origin, zoom, tiles, left, top, w, h)[row * (4 * w) + off] == mosaic_byte(
            origin,
            zoom,
            tiles,
            top + row,
            4 * left + off,
        ),
{
    let stride: int = 4 * w;
    let i: int = row * stride + off;
    crate::raster::lemma_offset_in_bounds(row, off, h as int, stride);
    assert(0 <= i < h * stride);
    vstd::arithmetic::div_mod::lemma_fundamental_div_mod_converse(i, stride, row, off);
    assert(i / stride == row);
    assert(i % stride == off);
    let p = picture(origin, zoom, tiles, left, top, w, h);
    assert(p.len() == h * stride);
    assert(p[i] == mosaic_byte(origin, zoom, tiles, top + i / stride, 4 * left + i % stride));
}

/// Channel `c` of the pixel in column `x` of row `y` of the canvas belongs
/// to the tile `x / 256` columns right of and `y / 256` rows below the
/// first, and is channel `c` of the pixel `(x % 256, y % 256)` of that tile.
#[verifier::spinoff_prover]
pub proof fn lemma_tile_of_pixel(origin: (u32, u32), zoom: u32, x: int, y: int, c: int)
    requires
        0 <= x,
        0 <= y,
        0 <= c < 4,
        origin.0 + x / 256 <= u32::MAX,
        origin.1 + y / 256 <= u32::MAX,
    ensures
        (4 * x + c) / 1024 == x / 256,
        (4 * x + c) % 1024 == 4 * (x % 256) + c,
        tile_under(origin, zoom, y, 4 * x + c) == (TileIndex {
            x: (origin.0 + x / 256) as u32,
            y: (origin.1 + y / 256) as u32,
            z: zoom,
        }),
{
    let q = x / 256;
    let r = x % 256;
    assert(x == 256 * q + r && 0 <= r < 256);
    assert(4 * x + c == 1024 * q + (4 * r + c));
    assert(0 <= 4 * r + c < 1024);
    assert((4 * x + c) / 1024 == q);
    assert((4 * x + c) % 1024 == 4 * r + c);
}

/// The middle of the picture shows the point that was asked for. The pixel
/// in column `inner_size_px.0 / 2` of row `inner_size_px.1 / 2` of the
/// picture is the centre pixel of the canvas; it belongs to the tile that
/// holds the centre, and its channel `c` is, where the batch holds that
/// tile, the channel of the pixel of that tile in which the centre lies.
#[verifier::spinoff_prover]
pub proof fn lemma_center_pixel(
    sized: ConstrainedTileBox,
    zoom: u32,
    tiles: Map<TileIndex, Seq<u8>>,
    w: u32,
    h: u32,
    c: int,
)
    requires
        window_of(sized, w, h) is Ok,
        sized.inner_size_px.0 > 0,
        sized.inner_size_px.1 > 0,
        0 <= c < 4,
    ensures
        ({
            let origin = (
                sized.tile_box.first_column() as u32,
                sized.tile_box.first_row() as u32,
            );
            let (left, top) = window_of(sized, w, h).unwrap();
            let pw = sized.inner_size_px.0;
            let ph = sized.inner_size_px.1;
            let mid_x = pw as int / 2;
            let mid_y = ph as int / 2;
            let home = TileIndex {
                x: floor_tile(sized.center.x) as u32,
                y: floor_tile(sized.center.y) as u32,
                z: zoom,
            };
            let in_tile = (pixel_of(sized.center.y) % (TILE_SIZE as int)) * TILE_STRIDE + 4 * (
            pixel_of(sized.center.x) % (TILE_SIZE as int)) + c;
            &&& left + mid_x == sized.center_px_x()
            &&& top + mid_y == sized.center_px_y()
            &&& picture(origin, zoom, tiles, left, top, pw, ph)[mid_y * (4 * pw) + 4 * mid_x + c]
                == mosaic_byte(origin, zoom, tiles, top + mid_y, 4 * (left + mid_x) + c)
            &&& tile_under(origin, zoom, top + mid_y, 4 * (left + mid_x) + c) == home
            &&& tiles.contains_key(home) && tile_image(tiles[home]) is Some ==> mosaic_byte(
                origin,
                zoom,
                tiles,
                top + mid_y,
                4 * (left + mid_x) + c,
            ) == tile_image(tiles[home]).unwrap()[in_tile]
        }),
{
    let b = sized.tile_box;
    let origin = (b.first_column() as u32, b.first_row() as u32);
    let (left, top) = window_of(sized, w, h).unwrap();
    let pw = sized.inner_size_px.0;
    let ph = sized.inner_size_px.1;
    let mid_x: int = pw as int / 2;
    let mid_y: int = ph as int / 2;
    // the first tile
    lemma_pixel_in_tile(b.top_left.x);
    lemma_pixel_in_tile(b.top_left.y);
    let fc: int = b.first_column();
    let fr: int = b.first_row();
    assert(origin.0 == fc && origin.1 == fr);
    // the centre: its pixel and its tile
    lemma_pixel_in_tile(sized.center.x);
    lemma_pixel_in_tile(sized.center.y);
    let px: int = pixel_of(sized.center.x);
    let py: int = pixel_of(sized.center.y);
    let tx: int = floor_tile(sized.center.x);
    let ty: int = floor_tile(sized.center.y);
    assert(px / 256 == tx && px % 256 == px - 256 * tx);
    assert(py / 256 == ty && py % 256 == py - 256 * ty);
    // the centre pixel on the canvas
    let cx: int = left + mid_x;
    let cy: int = top + mid_y;
    assert(left == sized.crop_left() && top == sized.crop_top());
    assert(cx == sized.center_px_x() && cx == px - 256 * fc);
    assert(cy == sized.center_px_y() && cy == py - 256 * fr);
    assert(0 <= cx && 0 <= cy);
    assert(cx == 256 * (tx - fc) + px % 256);
    assert(cy == 256 * (ty - fr) + py % 256);
    assert(cx / 256 == tx - fc && cx % 256 == px % 256);
    assert(cy / 256 == ty - fr && cy % 256 == py % 256);
    // the byte of the picture and the byte of the canvas
    assert(0 <= mid_y < ph && 0 <= 4 * mid_x + c < 4 * pw);
    lemma_picture_byte(origin, zoom, tiles, left, top, pw, ph, mid_y, 4 * mid_x + c);
    assert(4 * left + (4 * mid_x + c) == 4 * cx + c);
    // the tile of that byte and the place in the tile
    lemma_tile_of_pixel(origin, zoom, cx, cy, c);
    assert((4 * cx + c) / 1024 == tx - fc);
    assert((4 * cx + c) % 1024 == 4 * (px % 256) + c);
    let home = TileIndex { x: tx as u32, y: ty as u32, z: zoom };
    assert(tile_under(origin, zoom, cy, 4 * cx + c) == home);
}

} // verus!
