use tile_mosaic::batch::TileBatch;
use tile_mosaic::geometry::TileIndex;

#[test]
fn new_batch_is_empty() {
    let b = TileBatch::new(12);
    assert_eq!(b.len(), 0);
    assert_eq!(b.zoom(), 12);
    assert_eq!(b.get(&TileIndex { x: 0, y: 0, z: 12 }), None);
}

#[test]
fn insert_then_get() {
    let mut b = TileBatch::new(12);
    assert!(b.insert(TileIndex { x: 1, y: 2, z: 12 }, vec![1, 2]));
    assert!(b.insert(TileIndex { x: 2, y: 1, z: 12 }, vec![3]));
    assert_eq!(b.len(), 2);
    assert_eq!(b.get(&TileIndex { x: 1, y: 2, z: 12 }), Some(&vec![1, 2]));
    assert_eq!(b.get(&TileIndex { x: 2, y: 1, z: 12 }), Some(&vec![3]));
    assert_eq!(b.get(&TileIndex { x: 2, y: 2, z: 12 }), None);
}

#[test]
fn insert_with_the_same_index_replaces() {
    let mut b = TileBatch::new(3);
    assert!(b.insert(TileIndex { x: 1, y: 2, z: 3 }, vec![1]));
    assert!(b.insert(TileIndex { x: 5, y: 5, z: 3 }, vec![2]));
    assert!(b.insert(TileIndex { x: 1, y: 2, z: 3 }, vec![9, 9]));
    assert_eq!(b.len(), 2);
    assert_eq!(b.get(&TileIndex { x: 1, y: 2, z: 3 }), Some(&vec![9, 9]));
    assert_eq!(b.entry(0).index, TileIndex { x: 1, y: 2, z: 3 });
    assert_eq!(b.entry(0).bytes, vec![9, 9]);
    assert_eq!(b.entry(1).index, TileIndex { x: 5, y: 5, z: 3 });
}

#[test]
fn tile_of_another_zoom_level_is_turned_away() {
    let mut b = TileBatch::new(3);
    assert!(!b.insert(TileIndex { x: 1, y: 2, z: 4 }, vec![1]));
    assert_eq!(b.len(), 0);
    assert_eq!(b.get(&TileIndex { x: 1, y: 2, z: 4 }), None);
}
