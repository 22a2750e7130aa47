use kovia::change_tracking::{
    invalidate_from_features, invalidate_from_height, invalidate_from_regions, DerivedProducts, DirtyTracker,
};
use kovia::coordinates::TileId;

#[test]
fn marking_unions_products_per_tile() {
    let mut dirty = DirtyTracker::default();
    let root = TileId::root();
    let child = root.children()[3];
    dirty.mark(child, DerivedProducts(DerivedProducts::FLOW));
    dirty.mark(root, DerivedProducts(DerivedProducts::NORMALS));
    dirty.mark(child, DerivedProducts(DerivedProducts::RIVERS));
    assert_eq!(dirty.tiles.len(), 2);
    assert_eq!(dirty.tiles[0].0, root);
    assert_eq!(dirty.tiles[1].1, DerivedProducts(DerivedProducts::FLOW | DerivedProducts::RIVERS));
}

#[test]
fn clearing_forgets_a_tile_once_nothing_is_stale() {
    let mut dirty = DirtyTracker::default();
    let root = TileId::root();
    dirty.mark(root, DerivedProducts(DerivedProducts::FLOW | DerivedProducts::RIVERS));
    dirty.clear(root, DerivedProducts(DerivedProducts::FLOW));
    assert_eq!(dirty.tiles, vec![(root, DerivedProducts(DerivedProducts::RIVERS))]);
    dirty.clear(root, DerivedProducts(DerivedProducts::RIVERS | DerivedProducts::BIOMES));
    assert!(dirty.tiles.is_empty());
    dirty.clear(root, DerivedProducts(DerivedProducts::RIVERS));
    assert!(dirty.tiles.is_empty());
}

#[test]
fn marking_nothing_still_lists_the_tile() {
    let mut dirty = DirtyTracker::default();
    dirty.mark(TileId::root(), DerivedProducts::empty());
    assert_eq!(dirty.tiles.len(), 1);
    assert!(dirty.tiles[0].1.is_empty());
}

#[test]
fn change_events_invalidate_their_products() {
    let mut dirty = DirtyTracker::default();
    let root = TileId::root();
    invalidate_from_height(&mut dirty, root);
    assert_eq!(dirty.tiles[0].1, DerivedProducts(0b111_1111));
    invalidate_from_regions(&mut dirty, root);
    assert_eq!(dirty.tiles[0].1, DerivedProducts(0b1_1111_1111));
    assert!(dirty.tiles[0].1.contains(DerivedProducts(DerivedProducts::LABEL_LAYOUT)));
    assert!(!dirty.feature_labels);
    invalidate_from_features(&mut dirty);
    assert!(dirty.feature_labels);
}

#[test]
fn product_sets_behave_like_bit_flags() {
    let mut set = DerivedProducts::empty().union(DerivedProducts(DerivedProducts::SLOPE));
    assert!(set.contains(DerivedProducts(DerivedProducts::SLOPE)));
    assert!(!set.contains(DerivedProducts(DerivedProducts::SLOPE | DerivedProducts::FLOW)));
    set.remove(DerivedProducts(DerivedProducts::SLOPE));
    assert!(set.is_empty());
}
