use kovia::change_tracking::{DerivedProducts, DirtyTracker};
use kovia::editor::{ActiveEditTile, LayerSelection, SelectedFeature};
use kovia::history::EditHistory;
use kovia::layers::LayerRegistry;
use kovia::persistence::{settle_after_load, ProjectSession};
use kovia::coordinates::{CubeFace, PlanetSpec, SurfacePosition, TileId};
use kovia::features::{FeatureGeometry, FeatureKind, MapFeature, SettlementKind};
use kovia::layers::{LayerDefinition, RegionTile};
use kovia::persistence::{
    features_from_list, registry_from_layers, store_from_records, validate_snapshot, HeightTileRecord,
    ProjectRegionTile, ProjectSnapshot, SnapshotError, PROJECT_SCHEMA_VERSION,
};
use kovia::protocol::{FeatureId, LayerId};

fn flat_tile(id: TileId, edge: u16, height: f32) -> HeightTileRecord {
    HeightTileRecord {
        id,
        edge_samples: edge,
        revision: 0,
        min_height_m: height.to_bits(),
        max_height_m: height.to_bits(),
        samples: vec![height.to_bits(); edge as usize * edge as usize],
    }
}

fn feature(id: u128, u: f64, layer: Option<LayerId>) -> MapFeature {
    MapFeature {
        id: FeatureId(id),
        name: "Talar".to_string(),
        kind: FeatureKind::Settlement { kind: SettlementKind::Town, population: None },
        geometry: FeatureGeometry::Point(SurfacePosition {
            face: CubeFace::PositiveY,
            u: u.to_bits(),
            v: 0.0f64.to_bits(),
            altitude_m: 0.0f32.to_bits(),
        }),
        visible_from_level: 4,
        layer,
    }
}

fn snapshot() -> ProjectSnapshot {
    let layer = LayerDefinition::categorical("Historical polities".to_string());
    ProjectSnapshot {
        schema_version: PROJECT_SCHEMA_VERSION,
        planet: PlanetSpec::default(),
        terrain_tiles: vec![flat_tile(TileId::root(), 129, 42.0)],
        layers: vec![layer],
        categorical_tiles: Vec::new(),
        features: Vec::new(),
    }
}

#[test]
fn a_consistent_snapshot_is_accepted() {
    let s = snapshot();
    assert_eq!(validate_snapshot(&s), Ok(()));
    assert_eq!(f64::from_bits(PlanetSpec::default().radius_m), 6_000_000.0);
}

#[test]
fn schema_and_planet_are_checked_first() {
    let mut s = snapshot();
    s.schema_version = 2;
    s.planet.radius_m = f64::NAN.to_bits();
    assert_eq!(validate_snapshot(&s), Err(SnapshotError::UnsupportedSchema(2)));
    s.schema_version = 1;
    assert_eq!(validate_snapshot(&s), Err(SnapshotError::InvalidPlanetRadius));
    s.planet.radius_m = (-1.0f64).to_bits();
    assert_eq!(validate_snapshot(&s), Err(SnapshotError::InvalidPlanetRadius));
    s.planet.radius_m = 0.0f64.to_bits();
    assert_eq!(validate_snapshot(&s), Err(SnapshotError::InvalidPlanetRadius));
}

#[test]
fn terrain_tiles_must_be_unique_and_complete() {
    let mut s = snapshot();
    s.terrain_tiles.push(flat_tile(TileId::root(), 3, 1.0));
    assert_eq!(validate_snapshot(&s), Err(SnapshotError::InconsistentTerrainTile));
    let child = TileId::root().children()[0];
    let mut s = snapshot();
    let mut bad = flat_tile(child, 3, 1.0);
    bad.samples[4] = f32::INFINITY.to_bits();
    s.terrain_tiles.push(bad);
    assert_eq!(validate_snapshot(&s), Err(SnapshotError::InvalidTerrainSamples(child)));
    let mut s = snapshot();
    s.terrain_tiles.push(flat_tile(child, 1, 1.0));
    assert_eq!(validate_snapshot(&s), Err(SnapshotError::InconsistentTerrainTile));
}

#[test]
fn layers_masks_and_features_are_checked() {
    let mut s = snapshot();
    let id = s.layers[0].id;
    let mut twin = LayerDefinition::categorical("Twin".to_string());
    twin.id = id;
    s.layers.push(twin);
    assert_eq!(validate_snapshot(&s), Err(SnapshotError::DuplicateLayer(id)));

    let mut s = snapshot();
    s.categorical_tiles.push(ProjectRegionTile { layer: LayerId(3), tile: RegionTile::empty(TileId::root(), 4) });
    assert_eq!(validate_snapshot(&s), Err(SnapshotError::InconsistentCategoricalTile));

    let mut s = snapshot();
    let layer = s.layers[0].id;
    s.features.push(feature(1, 0.5, Some(layer)));
    s.features.push(feature(2, 1.5, None));
    assert_eq!(validate_snapshot(&s), Err(SnapshotError::InvalidFeaturePosition(FeatureId(2))));
    s.features[1] = feature(1, 0.0, None);
    assert_eq!(validate_snapshot(&s), Err(SnapshotError::DuplicateFeature(FeatureId(1))));
    s.features[1] = feature(2, -1.0, Some(LayerId(99)));
    assert_eq!(validate_snapshot(&s), Err(SnapshotError::MissingFeatureLayer(FeatureId(2))));
    s.features[1] = feature(2, -1.0, None);
    assert_eq!(validate_snapshot(&s), Ok(()));
}

#[test]
fn checked_records_become_stores() {
    let s = snapshot();
    let layer_id = s.layers[0].id;
    let registry = registry_from_layers(s.layers);
    assert_eq!(registry.ordering, vec![layer_id]);
    let store = store_from_records(vec![ProjectRegionTile { layer: layer_id, tile: RegionTile::empty(TileId::root(), 2) }]);
    assert_eq!(store.categorical_tiles.len(), 1);
    assert_eq!(store.categorical_tiles[0].0, (layer_id, TileId::root()));
    let features = features_from_list(vec![feature(9, 0.0, None), feature(3, 0.0, None)]);
    assert_eq!(features.features[0].id, FeatureId(3));
    assert_eq!(features.features[1].id, FeatureId(9));
}

#[test]
fn snapshot_round_trips_without_losing_authored_data() {
    let restored = snapshot();
    validate_snapshot(&restored).unwrap();
    let ProjectSnapshot { terrain_tiles, layers, .. } = restored;
    let registry = registry_from_layers(layers);
    assert_eq!(f32::from_bits(terrain_tiles[0].samples[0]), 42.0);
    assert_eq!(registry.ordering.len(), 1);
}

#[test]
fn a_load_settles_the_editor_on_the_loaded_world() {
    let mut registry = LayerRegistry::default();
    let mut definition = LayerDefinition::categorical("Kingdoms".to_string());
    let region = definition.add_region("Kovia".to_string(), [1, 2, 3, 4]);
    let layer = registry.insert(definition);
    let mut history: EditHistory<u32> = EditHistory::new();
    history.record(7);
    let mut dirty = DirtyTracker::default();
    dirty.mark(TileId::root(), DerivedProducts(DerivedProducts::FLOW));
    let mut selection = LayerSelection { layer: None, region: None };
    let mut selected = SelectedFeature(Some(FeatureId(9)));
    let gone = TileId::new(CubeFace::NegativeX, 0, 0, 0).unwrap();
    let mut active = ActiveEditTile(gone);
    let mut session = ProjectSession { dirty: true, last_saved_path: None };
    let a = TileId::new(CubeFace::PositiveZ, 1, 1, 0).unwrap();
    let b = TileId::new(CubeFace::PositiveZ, 1, 0, 1).unwrap();
    let path = std::path::PathBuf::from("world.kovia.json");
    settle_after_load(&registry, &vec![a, b], path.clone(), &mut history, &mut dirty, &mut selection, &mut selected, &mut active, &mut session);
    assert_eq!((history.undo_len(), history.redo_len()), (0, 0));
    assert!(dirty.tiles.is_empty());
    assert_eq!(selection, LayerSelection { layer: Some(layer), region: Some(region) });
    assert!(selected.0.is_none());
    assert_eq!(active.0, b);
    assert!(!session.dirty);
    assert_eq!(session.last_saved_path, Some(path.clone()));

    let mut active = ActiveEditTile(a);
    settle_after_load(&registry, &vec![a, b], path, &mut history, &mut dirty, &mut selection, &mut selected, &mut active, &mut session);
    assert_eq!(active.0, a);
}
