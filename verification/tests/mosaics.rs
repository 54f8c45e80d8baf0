use tile_mosaic::batch::TileBatch;
use tile_mosaic::codec::{decode, encode};
use tile_mosaic::geometry::{
    ConstrainedTileBox, TileBox, TileCoordinate, TileIndex, UNITS_PER_PIXEL, UNITS_PER_TILE,
};
use tile_mosaic::mosaic::{
    assemble, canvas_size, compose, crop_window, place_tile, GeometryFault, MosaicError,
};
use tile_mosaic::raster::Raster;

fn colour_of(t: &TileIndex) -> [u8; 4] {
    [(t.x % 251) as u8, (t.y % 241) as u8, ((t.x * 7 + t.y * 13) % 256) as u8, 255]
}

fn solid(width: u32, height: u32, colour: [u8; 4]) -> Raster {
    let mut data: Vec<u8> = Vec::new();
    for _ in 0..(width as usize * height as usize) {
        data.extend_from_slice(&colour);
    }
    Raster::from_samples(width, height, data).unwrap()
}

fn tile_png(t: &TileIndex) -> Vec<u8> {
    encode(&solid(256, 256, colour_of(t))).unwrap()
}

fn full_batch(x0: u32, y0: u32, x1: u32, y1: u32, z: u32) -> TileBatch {
    let mut batch = TileBatch::new(z);
    for x in x0..=x1 {
        for y in y0..=y1 {
            let t = TileIndex { x, y, z };
            assert!(batch.insert(t, tile_png(&t)));
        }
    }
    batch
}

fn at(x: f64, y: f64, z: u32) -> TileCoordinate {
    TileCoordinate {
        x: (x * UNITS_PER_TILE as f64).floor() as u64,
        y: (y * UNITS_PER_TILE as f64).floor() as u64,
        z,
    }
}

fn two_by_two(center: TileCoordinate, size: (u32, u32)) -> ConstrainedTileBox {
    ConstrainedTileBox {
        tile_box: TileBox { top_left: at(2.25, 3.25, 5), bottom_right: at(2.75, 3.75, 5) },
        center,
        inner_size_px: size,
    }
}

#[test]
fn canvas_is_256_pixels_for_each_column_and_row() {
    let b = TileBox { top_left: at(2.25, 3.25, 5), bottom_right: at(3.5, 3.75, 5) };
    let batch = full_batch(2, 3, 4, 4, 5);
    assert_eq!(canvas_size(&b, &batch), Ok((768, 512)));
}

#[test]
fn canvas_must_match_the_rectangle() {
    let b = TileBox { top_left: at(2.25, 3.25, 5), bottom_right: at(3.5, 3.75, 5) };
    let batch = full_batch(2, 3, 3, 4, 5);
    assert_eq!(
        canvas_size(&b, &batch),
        Err(MosaicError::Geometry { fault: GeometryFault::CanvasMismatch { columns: 2, rows: 2 } })
    );
    let empty = TileBatch::new(5);
    assert_eq!(
        canvas_size(&b, &empty),
        Err(MosaicError::Geometry { fault: GeometryFault::CanvasMismatch { columns: 0, rows: 0 } })
    );
}

#[test]
fn canvas_counts_columns_and_rows_not_tiles() {
    let b = TileBox { top_left: at(2.25, 3.25, 5), bottom_right: at(2.75, 3.75, 5) };
    let mut batch = TileBatch::new(5);
    let a = TileIndex { x: 2, y: 3, z: 5 };
    let c = TileIndex { x: 3, y: 4, z: 5 };
    batch.insert(a, tile_png(&a));
    batch.insert(c, tile_png(&c));
    assert_eq!(canvas_size(&b, &batch), Ok((512, 512)));
    let canvas = compose(&b, &batch).unwrap();
    assert_eq!(canvas.pixel(0, 0), Some(colour_of(&a)));
    assert_eq!(canvas.pixel(511, 511), Some(colour_of(&c)));
    assert_eq!(canvas.pixel(256, 0), Some([0, 0, 0, 0]));
    assert_eq!(canvas.pixel(0, 256), Some([0, 0, 0, 0]));
}

#[test]
fn place_tile_copies_at_the_offset_of_the_index() {
    let mut canvas = Raster::blank(512, 768).unwrap();
    let t = TileIndex { x: 11, y: 22, z: 7 };
    let out = place_tile(&mut canvas, (10, 20), t, Some(solid(256, 256, [1, 2, 3, 4])));
    assert_eq!(out, Ok(()));
    assert_eq!(canvas.pixel(255, 512), Some([0, 0, 0, 0]));
    assert_eq!(canvas.pixel(256, 511), Some([0, 0, 0, 0]));
    assert_eq!(canvas.pixel(256, 512), Some([1, 2, 3, 4]));
    assert_eq!(canvas.pixel(511, 767), Some([1, 2, 3, 4]));
}

#[test]
fn place_tile_refuses_what_is_no_tile_image() {
    let mut canvas = Raster::blank(512, 512).unwrap();
    let t = TileIndex { x: 10, y: 20, z: 7 };
    assert_eq!(place_tile(&mut canvas, (10, 20), t, None), Err(MosaicError::Decode { tile: t }));
    assert_eq!(
        place_tile(&mut canvas, (10, 20), t, Some(solid(255, 256, [9, 9, 9, 9]))),
        Err(MosaicError::Decode { tile: t })
    );
    assert_eq!(
        place_tile(&mut canvas, (10, 20), t, Some(solid(256, 512, [9, 9, 9, 9]))),
        Err(MosaicError::Decode { tile: t })
    );
    assert_eq!(canvas.as_bytes(), Raster::blank(512, 512).unwrap().as_bytes());
}

#[test]
fn place_tile_refuses_a_tile_outside_the_canvas() {
    let mut canvas = Raster::blank(512, 512).unwrap();
    let outside = [
        TileIndex { x: 9, y: 20, z: 7 },
        TileIndex { x: 10, y: 19, z: 7 },
        TileIndex { x: 12, y: 20, z: 7 },
        TileIndex { x: 10, y: 22, z: 7 },
        TileIndex { x: u32::MAX, y: u32::MAX, z: 7 },
    ];
    for t in outside.iter() {
        assert_eq!(
            place_tile(&mut canvas, (10, 20), *t, Some(solid(256, 256, [9, 9, 9, 9]))),
            Err(MosaicError::Geometry { fault: GeometryFault::TileOutsideCanvas { tile: *t } })
        );
    }
    assert_eq!(canvas.as_bytes(), Raster::blank(512, 512).unwrap().as_bytes());
}

#[test]
fn compose_puts_each_tile_in_its_place() {
    let b = TileBox { top_left: at(2.25, 3.25, 5), bottom_right: at(3.5, 3.75, 5) };
    let batch = full_batch(2, 3, 4, 4, 5);
    let canvas = compose(&b, &batch).unwrap();
    assert_eq!((canvas.width(), canvas.height()), (768, 512));
    for x in 2..=4u32 {
        for y in 3..=4u32 {
            let want = Some(colour_of(&TileIndex { x, y, z: 5 }));
            assert_eq!(canvas.pixel((x - 2) * 256, (y - 3) * 256), want);
            assert_eq!(canvas.pixel((x - 2) * 256 + 255, (y - 3) * 256 + 255), want);
        }
    }
}

#[test]
fn compose_reports_the_tile_that_does_not_decode() {
    let b = TileBox { top_left: at(2.25, 3.25, 5), bottom_right: at(2.75, 3.75, 5) };
    let mut batch = full_batch(2, 3, 3, 4, 5);
    let bad = TileIndex { x: 3, y: 3, z: 5 };
    batch.insert(bad, b"<html>no tile</html>".to_vec());
    assert_eq!(compose(&b, &batch).err(), Some(MosaicError::Decode { tile: bad }));
    let sized = ConstrainedTileBox { tile_box: b, center: at(3.0, 4.0, 5), inner_size_px: (10, 10) };
    assert_eq!(assemble(&sized, &batch), Err(MosaicError::Decode { tile: bad }));
}

#[test]
fn compose_reports_a_tile_of_the_wrong_size() {
    let b = TileBox { top_left: at(2.25, 3.25, 5), bottom_right: at(2.75, 3.75, 5) };
    let mut batch = full_batch(2, 3, 3, 4, 5);
    let bad = TileIndex { x: 2, y: 4, z: 5 };
    batch.insert(bad, encode(&solid(128, 128, [1, 1, 1, 1])).unwrap());
    assert_eq!(compose(&b, &batch).err(), Some(MosaicError::Decode { tile: bad }));
}

#[test]
fn compose_reports_a_tile_outside_the_rectangle() {
    let b = TileBox { top_left: at(2.25, 3.25, 5), bottom_right: at(2.75, 3.75, 5) };
    let batch = full_batch(3, 3, 4, 4, 5);
    assert_eq!(
        compose(&b, &batch).err(),
        Some(MosaicError::Geometry {
            fault: GeometryFault::TileOutsideCanvas { tile: TileIndex { x: 4, y: 3, z: 5 } }
        })
    );
}

#[test]
fn crop_window_lies_half_a_picture_from_the_centre() {
    let sized = two_by_two(at(3.0, 4.0, 5), (200, 100));
    assert_eq!(crop_window(&sized, 512, 512), Ok((156, 206)));
}

#[test]
fn crop_window_may_touch_the_edges() {
    let sized = two_by_two(at(3.0, 4.0, 5), (512, 512));
    assert_eq!(crop_window(&sized, 512, 512), Ok((0, 0)));
}

#[test]
fn crop_window_outside_the_canvas_is_a_geometry_error() {
    let sized = two_by_two(at(3.0, 4.0, 5), (514, 10));
    assert_eq!(
        crop_window(&sized, 512, 512),
        Err(MosaicError::Geometry { fault: GeometryFault::CropOutsideCanvas { left: -1, top: 251 } })
    );
    let sized = two_by_two(at(3.5, 4.0, 5), (512, 10));
    assert_eq!(
        crop_window(&sized, 512, 512),
        Err(MosaicError::Geometry { fault: GeometryFault::CropOutsideCanvas { left: 128, top: 251 } })
    );
    let sized = two_by_two(at(1.0, 1.0, 5), (10, 10));
    assert_eq!(
        crop_window(&sized, 512, 512),
        Err(MosaicError::Geometry {
            fault: GeometryFault::CropOutsideCanvas { left: -256 - 5, top: -512 - 5 }
        })
    );
}

#[test]
fn picture_has_the_requested_size_and_is_centred() {
    let sized = two_by_two(at(3.0, 4.0, 5), (200, 100));
    let batch = full_batch(2, 3, 3, 4, 5);
    let png = assemble(&sized, &batch).unwrap();
    let img = image::load_from_memory(&png).unwrap().to_rgba8();
    assert_eq!((img.width(), img.height()), (200, 100));
    assert_eq!(img.get_pixel(0, 0).0, colour_of(&TileIndex { x: 2, y: 3, z: 5 }));
    assert_eq!(img.get_pixel(199, 0).0, colour_of(&TileIndex { x: 3, y: 3, z: 5 }));
    assert_eq!(img.get_pixel(0, 99).0, colour_of(&TileIndex { x: 2, y: 4, z: 5 }));
    assert_eq!(img.get_pixel(99, 49).0, colour_of(&TileIndex { x: 2, y: 3, z: 5 }));
    assert_eq!(img.get_pixel(100, 49).0, colour_of(&TileIndex { x: 3, y: 3, z: 5 }));
    assert_eq!(img.get_pixel(99, 50).0, colour_of(&TileIndex { x: 2, y: 4, z: 5 }));
    assert_eq!(img.get_pixel(100, 50).0, colour_of(&TileIndex { x: 3, y: 4, z: 5 }));
}

#[test]
fn picture_is_the_window_of_the_canvas() {
    let sized = two_by_two(at(2.9, 3.6, 5), (64, 32));
    let batch = full_batch(2, 3, 3, 4, 5);
    let canvas = compose(&sized.tile_box, &batch).unwrap();
    let (left, top) = crop_window(&sized, canvas.width(), canvas.height()).unwrap();
    assert_eq!((left, top), (230 - 32, 153 - 16));
    let cut = canvas.crop(left, top, 64, 32).unwrap();
    let png = assemble(&sized, &batch).unwrap();
    assert_eq!(png, encode(&cut).unwrap());
    assert_eq!(decode(&png).unwrap().as_bytes(), cut.as_bytes());
}

#[test]
fn order_of_arrival_does_not_show_in_the_picture() {
    let sized = two_by_two(at(3.0, 4.0, 5), (300, 300));
    let forward = full_batch(2, 3, 3, 4, 5);
    let mut backward = TileBatch::new(5);
    for x in (2..=3u32).rev() {
        for y in (3..=4u32).rev() {
            let t = TileIndex { x, y, z: 5 };
            backward.insert(t, tile_png(&t));
        }
    }
    assert_ne!(forward.entry(0).index, backward.entry(0).index);
    let a = compose(&sized.tile_box, &forward).unwrap();
    let b = compose(&sized.tile_box, &backward).unwrap();
    assert_eq!(a.as_bytes(), b.as_bytes());
    assert_eq!(assemble(&sized, &forward), assemble(&sized, &backward));
}

#[test]
fn picture_of_no_pixels_cannot_be_encoded() {
    let sized = two_by_two(at(3.0, 4.0, 5), (0, 0));
    let batch = full_batch(2, 3, 3, 4, 5);
    assert_eq!(assemble(&sized, &batch), Err(MosaicError::Encode));
}

#[test]
fn picture_of_one_kilometre_around_perth() {
    let lat: f64 = -31.9514;
    let lon: f64 = 115.8617;
    let zoom: u32 = 16;
    let n = (1u64 << zoom) as f64;
    let cx = (lon + 180.0) / 360.0 * n;
    let cy = (1.0 - lat.to_radians().tan().asinh() / std::f64::consts::PI) / 2.0 * n;
    let reach = 2.2;
    let sized = ConstrainedTileBox {
        tile_box: TileBox {
            top_left: at(cx - reach, cy - reach, zoom),
            bottom_right: at(cx + reach, cy + reach, zoom),
        },
        center: at(cx, cy, zoom),
        inner_size_px: (1024, 1024),
    };
    let (x0, y0) = sized.tile_box.outer_top_left();
    let (x1, y1) = sized.tile_box.outer_bottom_right();
    assert_eq!((x0, y0), (53857, 38909));
    assert_eq!((x1, y1), (53863, 38915));
    assert_eq!(sized.tile_box.span(), ((x1 - x0 + 1) as u64, (y1 - y0 + 1) as u64));
    let batch = full_batch(x0, y0, x1, y1, zoom);
    let png = assemble(&sized, &batch).unwrap();
    assert_eq!(&png[1..4], b"PNG");
    let img = image::load_from_memory(&png).unwrap().to_rgba8();
    assert!(img.width() >= 1000 && img.height() >= 1000);
    assert_eq!((img.width(), img.height()), (1024, 1024));
    let home = sized.center.containing_tile();
    assert_eq!(home, TileIndex { x: cx.floor() as u32, y: cy.floor() as u32, z: zoom });
    assert_eq!(img.get_pixel(512, 512).0, colour_of(&home));
    let _ = UNITS_PER_PIXEL;
}
