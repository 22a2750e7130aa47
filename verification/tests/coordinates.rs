use kovia::coordinates::{CubeFace, TileId};

#[test]
fn quadtree_addresses_round_trip_to_parent() {
    let tile = TileId::new(CubeFace::PositiveZ, 3, 5, 2).unwrap();
    let parent = tile.parent().unwrap();
    assert!(parent.children().contains(&tile));
}

#[test]
fn new_rejects_addresses_outside_the_level_grid() {
    assert!(TileId::new(CubeFace::PositiveX, 2, 3, 3).is_some());
    assert!(TileId::new(CubeFace::PositiveX, 2, 4, 0).is_none());
    assert!(TileId::new(CubeFace::PositiveX, 32, 0, 0).is_none());
    assert_eq!(TileId::root().width(), 1);
    assert_eq!(TileId::new(CubeFace::NegativeY, 5, 0, 0).unwrap().width(), 32);
}

#[test]
fn root_has_no_parent_and_four_children() {
    assert!(TileId::root().parent().is_none());
    let children = TileId::root().children();
    assert_eq!(children[3], TileId { face: CubeFace::PositiveY, level: 1, x: 1, y: 1 });
    for child in children {
        assert_eq!(child.parent(), Some(TileId::root()));
    }
}

#[test]
fn tiles_order_by_face_level_then_position() {
    let a = TileId::new(CubeFace::PositiveX, 4, 9, 1).unwrap();
    let b = TileId::new(CubeFace::NegativeX, 0, 0, 0).unwrap();
    let c = TileId::new(CubeFace::PositiveX, 4, 9, 2).unwrap();
    assert!(a.is_before(&b));
    assert!(a.is_before(&c));
    assert!(!c.is_before(&a));
    assert!(!a.is_before(&a));
}
