use kovia::coordinates::TileId;
use kovia::editor::{LayerSelection, SelectedFeature, StatusLine};
use kovia::history::HistoryOutcome;
use kovia::layers::{configure_layer, create_layer, ConfigureLayer, CreateLayer, LayerRegistry, LayerStore, PaintRegion, RegionBrushStamp};
use kovia::persistence::{selection_after_load, ProjectPath, ProjectSession};
use kovia::protocol::{FeatureId, LayerId, RegionCode};
use kovia::status::{
    select_created_feature, select_created_layer, select_created_region, selected_region_overlay, show_erosion_failure,
    show_history_outcome, show_hydrology_outcome, show_project_failure, show_project_loaded, show_project_saved,
};
use kovia::terrain::{check_proposal, TerrainEditError};
use std::path::PathBuf;

#[test]
fn created_items_become_the_selection() {
    let mut selection = LayerSelection { layer: Some(LayerId(1)), region: Some(RegionCode(4)) };
    let mut status = StatusLine::default();
    select_created_layer(&mut selection, &mut status, LayerId(2));
    assert_eq!(selection, LayerSelection { layer: Some(LayerId(2)), region: None });
    assert_eq!(status.0, "Created layer");
    select_created_region(&mut selection, &mut status, LayerId(2), RegionCode(1));
    assert_eq!(selection.region, Some(RegionCode(1)));
    assert_eq!(status.0, "Created region");
    let mut selected = SelectedFeature::default();
    select_created_feature(&mut selected, &mut status, FeatureId(3));
    assert_eq!(selected.0, Some(FeatureId(3)));
    assert_eq!(status.0, "Placed settlement");
}

#[test]
fn status_lines_describe_outcomes() {
    let mut status = StatusLine::default();
    show_history_outcome(&mut status, &HistoryOutcome::Redid);
    assert_eq!(status.0, "Redid edit");
    show_history_outcome(&mut status, &HistoryOutcome::Failed("tile gone".to_string()));
    assert_eq!(status.0, "tile gone");
    show_hydrology_outcome(&mut status, 42);
    assert_eq!(status.0, "Computed 42 river segments");
    show_project_saved(&mut status, "a.json");
    assert_eq!(status.0, "Saved a.json");
    show_project_loaded(&mut status, "b.json");
    assert_eq!(status.0, "Loaded b.json");
    show_project_failure(&mut status, "load", "bad file");
    assert_eq!(status.0, "Could not load project: bad file");
    show_erosion_failure(&mut status);
    assert_eq!(status.0, "Erosion tile is not loaded");
}

#[test]
fn the_overlay_is_the_selected_visible_mask() {
    let mut registry = LayerRegistry::default();
    let mut layers = LayerStore::default();
    let layer = create_layer(&mut registry, &CreateLayer { name: "Realms".to_string() }).layer;
    let selection = LayerSelection { layer: Some(layer), region: Some(RegionCode(1)) };
    assert!(selected_region_overlay(&registry, &layers, &selection, TileId::root()).is_none());
    let stamp = RegionBrushStamp {
        layer,
        tile: TileId::root(),
        region: RegionCode(1),
        center_uv: [0, 0],
        radius_cells: 0,
        falloff: kovia::brush::BrushFalloff::Linear,
    };
    kovia::layers::paint_region_request(&registry, &mut layers, &PaintRegion { stamp, edge_cells: 2 }, &vec![(1, 1)])
        .unwrap();
    let (tile, definition) = selected_region_overlay(&registry, &layers, &selection, TileId::root()).unwrap();
    assert_eq!(tile.cells()[3], RegionCode(1));
    assert_eq!(definition.id, layer);
    configure_layer(&mut registry, &ConfigureLayer { layer, visible: Some(false), locked: None, opacity: None }).unwrap();
    assert!(selected_region_overlay(&registry, &layers, &selection, TileId::root()).is_none());
}

#[test]
fn loading_selects_the_first_layer_and_region() {
    let mut registry = LayerRegistry::default();
    assert_eq!(selection_after_load(&registry), LayerSelection { layer: None, region: None });
    let mut first = kovia::layers::LayerDefinition::categorical("A".to_string());
    first.add_region("North".to_string(), [1, 1, 1, 1]);
    let a = registry.insert(first);
    registry.insert(kovia::layers::LayerDefinition::categorical("B".to_string()));
    assert_eq!(selection_after_load(&registry), LayerSelection { layer: Some(a), region: Some(RegionCode(1)) });
}

#[test]
fn sessions_track_unsaved_edits() {
    assert_eq!(ProjectPath::default().0, "kovia-atlas.kovia.json");
    let mut session = ProjectSession::default();
    session.mark_dirty();
    assert!(session.dirty);
    session.mark_saved(PathBuf::from("w.json"));
    assert!(!session.dirty);
    assert_eq!(session.last_saved_path, Some(PathBuf::from("w.json")));
}

#[test]
fn proposals_must_match_the_tile_they_came_from() {
    let tile = TileId::root();
    assert_eq!(check_proposal(tile, None, 0, 4), Err(TerrainEditError::MissingTile(tile)));
    assert_eq!(
        check_proposal(tile, Some((3, 4)), 2, 4),
        Err(TerrainEditError::StaleProposal { expected: 2, actual: 3 })
    );
    assert_eq!(check_proposal(tile, Some((2, 5)), 2, 4), Err(TerrainEditError::InvalidProposalSize));
    assert_eq!(check_proposal(tile, Some((2, 4)), 2, 4), Ok(()));
}
