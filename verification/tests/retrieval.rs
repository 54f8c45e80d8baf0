use tile_mosaic::fetch::{check_response, FetchError, TransportStep};
use tile_mosaic::geometry::{TileBox, TileCoordinate, TileIndex, UNITS_PER_TILE};
use tile_mosaic::retrieval::{tile_coords, BatchRetriever, MAX_IN_FLIGHT};
use tile_mosaic::tileset::TileSet;

fn whole(x0: u32, y0: u32, x1: u32, y1: u32, z: u32) -> TileBox {
    TileBox {
        top_left: TileCoordinate::at_tile(x0, y0, z),
        bottom_right: TileCoordinate::at_tile(x1, y1, z),
    }
}

#[test]
fn grid_walks_column_by_column() {
    let tiles = tile_coords(&whole(2, 3, 3, 5, 9));
    let want = vec![
        TileIndex { x: 2, y: 3, z: 9 },
        TileIndex { x: 2, y: 4, z: 9 },
        TileIndex { x: 2, y: 5, z: 9 },
        TileIndex { x: 3, y: 3, z: 9 },
        TileIndex { x: 3, y: 4, z: 9 },
        TileIndex { x: 3, y: 5, z: 9 },
    ];
    assert_eq!(tiles, want);
}

#[test]
fn grid_takes_floor_and_ceiling() {
    let b = TileBox {
        top_left: TileCoordinate { x: 2 * UNITS_PER_TILE + 5, y: 3 * UNITS_PER_TILE + 5, z: 9 },
        bottom_right: TileCoordinate { x: 2 * UNITS_PER_TILE + 9, y: 3 * UNITS_PER_TILE + 9, z: 9 },
    };
    let tiles = tile_coords(&b);
    assert_eq!(tiles.len(), 4);
    assert_eq!(tiles[0], TileIndex { x: 2, y: 3, z: 9 });
    assert_eq!(tiles[3], TileIndex { x: 3, y: 4, z: 9 });
}

#[test]
fn grid_reaches_the_largest_index() {
    let tiles = tile_coords(&whole(u32::MAX - 1, u32::MAX, u32::MAX, u32::MAX, 32));
    assert_eq!(
        tiles,
        vec![
            TileIndex { x: u32::MAX - 1, y: u32::MAX, z: 32 },
            TileIndex { x: u32::MAX, y: u32::MAX, z: 32 },
        ]
    );
}

#[test]
fn inverted_rectangle_has_no_tiles() {
    assert!(tile_coords(&whole(5, 5, 4, 9, 3)).is_empty());
    assert!(tile_coords(&whole(5, 5, 9, 4, 3)).is_empty());
}

#[test]
fn rectangle_of_one_tile_asks_for_one_fetch() {
    let mut r = BatchRetriever::new(&whole(7, 8, 7, 8, 4));
    assert_eq!(r.total(), 1);
    assert_eq!(r.next_fetch(), Some(TileIndex { x: 7, y: 8, z: 4 }));
    assert_eq!(r.next_fetch(), None);
    assert_eq!(r.dispatched(), 1);
    assert!(!r.is_done());
    assert!(r.complete(TileIndex { x: 7, y: 8, z: 4 }, Ok(vec![1, 2, 3])));
    assert!(r.is_done());
    assert_eq!(r.next_fetch(), None);
    let batch = r.finish().unwrap();
    assert_eq!(batch.len(), 1);
    assert_eq!(batch.get(&TileIndex { x: 7, y: 8, z: 4 }), Some(&vec![1, 2, 3]));
}

#[test]
fn every_tile_is_asked_for_once_and_ten_at_most_at_a_time() {
    let b = whole(10, 20, 16, 24, 6);
    let mut r = BatchRetriever::new(&b);
    assert_eq!(r.total(), 7 * 5);
    let mut under_way: Vec<TileIndex> = Vec::new();
    let mut asked: Vec<TileIndex> = Vec::new();
    let mut most = 0;
    let mut turn = 0usize;
    while !r.is_done() {
        while let Some(t) = r.next_fetch() {
            under_way.push(t);
            asked.push(t);
            assert!(r.in_flight() <= MAX_IN_FLIGHT);
        }
        assert_eq!(r.in_flight(), under_way.len());
        most = most.max(under_way.len());
        let pick = (turn * 7) % under_way.len();
        let t = under_way.remove(pick);
        assert!(r.complete(t, Ok(vec![t.x as u8, t.y as u8])));
        turn += 1;
    }
    assert_eq!(most, 10);
    assert_eq!(asked.len(), 35);
    assert_eq!(asked, tile_coords(&b));
    assert_eq!(r.dispatched(), 35);
    let batch = r.finish().unwrap();
    assert_eq!(batch.len(), 35);
    assert_eq!(batch.zoom(), 6);
    for t in tile_coords(&b) {
        assert_eq!(batch.get(&t), Some(&vec![t.x as u8, t.y as u8]));
    }
}

#[test]
fn answer_for_a_tile_that_is_not_under_way_is_turned_away() {
    let mut r = BatchRetriever::new(&whole(0, 0, 1, 1, 1));
    assert!(!r.complete(TileIndex { x: 0, y: 0, z: 1 }, Ok(vec![])));
    let t = r.next_fetch().unwrap();
    assert!(!r.complete(TileIndex { x: 9, y: 9, z: 1 }, Ok(vec![])));
    assert!(!r.complete(TileIndex { x: t.x, y: t.y, z: 2 }, Ok(vec![])));
    assert_eq!(r.in_flight(), 1);
    assert!(r.complete(t, Ok(vec![])));
    assert!(!r.complete(t, Ok(vec![])));
    assert_eq!(r.in_flight(), 0);
}

#[test]
fn one_failure_fails_the_batch_with_the_url_of_that_tile() {
    let b = whole(3366, 2431, 3367, 2432, 12);
    let mut r = BatchRetriever::new(&b);
    let bad = TileIndex { x: 3367, y: 2431, z: 12 };
    while let Some(t) = r.next_fetch() {
        let url = TileSet::Osm.tile_url(&t);
        let status = if t == bad { 404 } else { 200 };
        let outcome = match check_response(&url, status, Some("image/png")) {
            Ok(()) => Ok(vec![0u8; 4]),
            Err(e) => Err(e),
        };
        assert!(r.complete(t, outcome));
    }
    assert!(r.is_done());
    assert_eq!(
        r.finish().err(),
        Some(FetchError::UpstreamStatus {
            url: String::from("https://tile.openstreetmap.org/12/3367/2431.png"),
            status: 404,
        })
    );
}

#[test]
fn first_reported_failure_is_the_result() {
    let mut r = BatchRetriever::new(&whole(0, 0, 2, 0, 2));
    let a = r.next_fetch().unwrap();
    let b = r.next_fetch().unwrap();
    let c = r.next_fetch().unwrap();
    assert!(r.complete(c, Ok(vec![1])));
    assert!(r.complete(
        b,
        Err(FetchError::ContentType { url: String::from("b"), content_type: String::from("text/html") })
    ));
    assert!(r.complete(
        a,
        Err(FetchError::Transport {
            url: String::from("a"),
            step: TransportStep::Request,
            detail: String::new(),
        })
    ));
    assert_eq!(
        r.finish().err(),
        Some(FetchError::ContentType { url: String::from("b"), content_type: String::from("text/html") })
    );
}

#[test]
fn empty_plan_is_done_at_once() {
    let r = BatchRetriever::new(&whole(5, 5, 4, 4, 3));
    assert_eq!(r.total(), 0);
    assert!(r.is_done());
    let batch = r.finish().unwrap();
    assert_eq!(batch.len(), 0);
    assert_eq!(batch.zoom(), 3);
}
