use kovia::brush::BrushFalloff;
use kovia::coordinates::TileId;
use kovia::layers::{
    apply_region_patch, clamp_opacity, configure_layer, create_layer, create_region, paint_region,
    paint_region_request, ConfigureLayer, CreateLayer, CreateRegion, LayerDefinition, LayerEditError, LayerKind,
    LayerRegistry, LayerStore, PaintRegion, RegionBrushStamp, RegionTile, RegionUndo, DEFAULT_OPACITY_BITS,
};
use kovia::protocol::{LayerId, RegionCode};

/// Cells a constant-falloff brush covers, worked out as the atlas does.
fn constant_brush_cells(edge: u16, center_uv: [f32; 2], radius_cells: f32) -> Vec<(usize, usize)> {
    let edge = edge as usize;
    let center = [center_uv[0] * edge as f32, center_uv[1] * edge as f32];
    let radius = radius_cells.max(0.5);
    let min_x = (center[0] - radius).floor().max(0.0) as usize;
    let min_y = (center[1] - radius).floor().max(0.0) as usize;
    let max_x = (center[0] + radius).ceil().min((edge - 1) as f32) as usize;
    let max_y = (center[1] + radius).ceil().min((edge - 1) as f32) as usize;
    let mut cells = Vec::new();
    for y in min_y..=max_y {
        for x in min_x..=max_x {
            let dx = x as f32 - center[0];
            let dy = y as f32 - center[1];
            let distance = (dx * dx + dy * dy).sqrt();
            if distance > radius || distance / radius > 1.0 {
                continue;
            }
            cells.push((x, y));
        }
    }
    cells
}

fn stamp(layer: LayerId, region: RegionCode) -> RegionBrushStamp {
    RegionBrushStamp {
        layer,
        tile: TileId::root(),
        region,
        center_uv: [0.5f32.to_bits(), 0.5f32.to_bits()],
        radius_cells: 3.0f32.to_bits(),
        falloff: BrushFalloff::Constant,
    }
}

#[test]
fn layer_plugin_runs_without_terrain_features_or_ui() {
    let mut registry = LayerRegistry::default();
    let mut layers = LayerStore::default();
    let mut definition = LayerDefinition::categorical("Kingdoms".to_string());
    let region = definition.add_region("Kovia".to_string(), [224, 105, 72, 255]);
    let layer = registry.insert(definition);

    let request = PaintRegion { stamp: stamp(layer, region), edge_cells: 8 };
    let edge = layers.paint_edge(layer, TileId::root(), 8);
    let covered = constant_brush_cells(edge, [0.5, 0.5], 3.0);
    let result = paint_region_request(&registry, &mut layers, &request, &covered);
    assert!(matches!(result, Ok(Some(_))));

    assert_eq!(layers.categorical_tiles.len(), 1);
}

#[test]
fn categorical_layers_start_visible_unlocked_and_empty() {
    let definition = LayerDefinition::categorical("Rivers".to_string());
    assert_eq!(definition.name, "Rivers");
    assert_eq!(definition.kind, LayerKind::Categorical);
    assert!(definition.visible);
    assert!(!definition.locked);
    assert_eq!(f32::from_bits(definition.opacity), 0.65);
    assert_eq!(definition.opacity, DEFAULT_OPACITY_BITS);
    assert!(definition.regions.is_empty());
    assert_eq!(definition.next_region_code, 1);
}

#[test]
fn region_codes_count_up_from_one() {
    let mut definition = LayerDefinition::categorical("Kingdoms".to_string());
    let a = definition.add_region("Kovia".to_string(), [1, 2, 3, 4]);
    let b = definition.add_region("Talar".to_string(), [5, 6, 7, 8]);
    assert_eq!(a, RegionCode(1));
    assert_eq!(b, RegionCode(2));
    assert_eq!(definition.next_region_code, 3);
    assert_eq!(definition.regions.len(), 2);
    assert_eq!(definition.regions[1].name, "Talar");
    assert_eq!(definition.regions[1].color_rgba, [5, 6, 7, 8]);
}

#[test]
fn a_region_code_already_in_the_palette_is_replaced() {
    let mut definition = LayerDefinition::categorical("Kingdoms".to_string());
    definition.add_region("Kovia".to_string(), [1, 2, 3, 4]);
    definition.next_region_code = 1;
    let code = definition.add_region("Hyrel".to_string(), [9, 9, 9, 9]);
    assert_eq!(code, RegionCode(1));
    assert_eq!(definition.regions.len(), 1);
    assert_eq!(definition.regions[0].name, "Hyrel");
}

#[test]
fn registry_lists_layers_in_insertion_order() {
    let mut registry = LayerRegistry::default();
    let a = registry.insert(LayerDefinition::categorical("A".to_string()));
    let b = registry.insert(LayerDefinition::categorical("B".to_string()));
    assert_eq!(registry.ordering, vec![a, b]);
    assert_eq!(registry.position(b), Some(1));
    assert_eq!(registry.position(LayerId(7)), None);
}

#[test]
fn create_layer_trims_the_name() {
    let mut registry = LayerRegistry::default();
    let created = create_layer(&mut registry, &CreateLayer { name: "  Climate  ".to_string() });
    let i = registry.position(created.layer).unwrap();
    assert_eq!(registry.definitions[i].name, "Climate");
    assert_eq!(registry.ordering, vec![created.layer]);
}

#[test]
fn create_region_reports_missing_and_locked_layers() {
    let mut registry = LayerRegistry::default();
    let missing = LayerId(42);
    let request = CreateRegion { layer: missing, name: "North".to_string(), color_rgba: [0, 0, 0, 255] };
    assert_eq!(create_region(&mut registry, &request), Err(LayerEditError::MissingLayer(missing)));

    let layer = create_layer(&mut registry, &CreateLayer { name: "Realms".to_string() }).layer;
    let request = CreateRegion { layer, name: " North ".to_string(), color_rgba: [0, 0, 0, 255] };
    let created = create_region(&mut registry, &request).unwrap();
    assert_eq!(created.region, RegionCode(1));
    let i = registry.position(layer).unwrap();
    assert_eq!(registry.definitions[i].regions[0].name, "North");

    configure_layer(&mut registry, &ConfigureLayer { layer, visible: None, locked: Some(true), opacity: None })
        .unwrap();
    assert_eq!(create_region(&mut registry, &request), Err(LayerEditError::LockedLayer(layer)));
}

#[test]
fn configure_layer_clamps_opacity_and_keeps_unnamed_settings() {
    let mut registry = LayerRegistry::default();
    let layer = create_layer(&mut registry, &CreateLayer { name: "Realms".to_string() }).layer;
    let request = ConfigureLayer { layer, visible: Some(false), locked: None, opacity: Some(2.5f32.to_bits()) };
    configure_layer(&mut registry, &request).unwrap();
    let d = &registry.definitions[registry.position(layer).unwrap()];
    assert!(!d.visible);
    assert!(!d.locked);
    assert_eq!(f32::from_bits(d.opacity), 1.0);
    let missing = ConfigureLayer { layer: LayerId(1), visible: None, locked: None, opacity: None };
    assert_eq!(configure_layer(&mut registry, &missing), Err(LayerEditError::MissingLayer(LayerId(1))));
}

#[test]
fn opacity_clamp_matches_f32_clamp() {
    for value in [-3.0f32, -0.0, 0.0, 0.25, 1.0, 1.5, f32::INFINITY, f32::NEG_INFINITY, f32::MIN_POSITIVE] {
        assert_eq!(clamp_opacity(value.to_bits()), value.clamp(0.0, 1.0).to_bits(), "{value}");
    }
    assert!(f32::from_bits(clamp_opacity(f32::NAN.to_bits())).is_nan());
}

#[test]
fn region_tiles_index_row_major() {
    let tile = RegionTile::empty(TileId::root(), 4);
    assert_eq!(tile.cell_count(), 16);
    assert_eq!(tile.index(1, 2), 9);
    assert!(tile.cells().iter().all(|c| *c == RegionCode::unassigned()));
}

#[test]
fn painting_records_only_changed_cells_and_undo_restores_them() {
    let mut tile = RegionTile::empty(TileId::root(), 4);
    let layer = LayerId(5);
    let mut s = stamp(layer, RegionCode(2));
    s.tile = TileId::root();
    let patch = paint_region(&mut tile, s, &vec![(0, 0), (1, 0)]);
    assert_eq!(patch.changes.len(), 2);
    assert_eq!(patch.changes[1].index, 1);
    assert_eq!(patch.changes[1].before, RegionCode(0));
    assert_eq!(patch.changes[1].after, RegionCode(2));
    assert_eq!(tile.revision, 1);

    let again = paint_region(&mut tile, s, &vec![(1, 0)]);
    assert!(again.changes.is_empty());
    assert_eq!(tile.revision, 1);

    apply_region_patch(&mut tile, &patch, false);
    assert!(tile.cells().iter().all(|c| *c == RegionCode(0)));
    assert_eq!(tile.revision, 2);
    apply_region_patch(&mut tile, &patch, true);
    assert_eq!(tile.cells()[0], RegionCode(2));
    assert_eq!(tile.cells()[1], RegionCode(2));
    assert_eq!(tile.revision, 3);
}

#[test]
fn painting_a_locked_or_missing_layer_is_refused() {
    let mut registry = LayerRegistry::default();
    let mut layers = LayerStore::default();
    let layer = create_layer(&mut registry, &CreateLayer { name: "Realms".to_string() }).layer;
    let missing = PaintRegion { stamp: stamp(LayerId(9), RegionCode(1)), edge_cells: 4 };
    assert!(matches!(
        paint_region_request(&registry, &mut layers, &missing, &vec![(0, 0)]),
        Err(LayerEditError::MissingLayer(LayerId(9)))
    ));
    configure_layer(&mut registry, &ConfigureLayer { layer, visible: None, locked: Some(true), opacity: None })
        .unwrap();
    let locked = PaintRegion { stamp: stamp(layer, RegionCode(1)), edge_cells: 4 };
    assert!(matches!(
        paint_region_request(&registry, &mut layers, &locked, &vec![(0, 0)]),
        Err(LayerEditError::LockedLayer(_))
    ));
    assert!(layers.categorical_tiles.is_empty());
}

#[test]
fn stroke_history_entry_undoes_and_redoes_the_stroke() {
    let mut registry = LayerRegistry::default();
    let mut layers = LayerStore::default();
    let layer = create_layer(&mut registry, &CreateLayer { name: "Realms".to_string() }).layer;
    let request = PaintRegion { stamp: stamp(layer, RegionCode(3)), edge_cells: 4 };
    let (patch, changed) = paint_region_request(&registry, &mut layers, &request, &vec![(2, 1), (3, 3)])
        .unwrap()
        .unwrap();
    assert_eq!(changed.revision, 1);
    let undo = RegionUndo(patch);
    let undone = undo.undo(&mut layers).unwrap();
    assert_eq!(undone.revision, 2);
    assert!(layers.categorical_tiles[0].1.cells().iter().all(|c| *c == RegionCode(0)));
    undo.redo(&mut layers).unwrap();
    assert_eq!(layers.categorical_tiles[0].1.cells()[6], RegionCode(3));
    assert_eq!(layers.categorical_tiles[0].1.cells()[15], RegionCode(3));

    let mut empty = LayerStore::default();
    assert_eq!(undo.undo(&mut empty).unwrap_err(), "region tile needed by history is not resident");
}

#[test]
fn an_empty_stroke_still_creates_the_mask() {
    let mut registry = LayerRegistry::default();
    let mut layers = LayerStore::default();
    let layer = create_layer(&mut registry, &CreateLayer { name: "Realms".to_string() }).layer;
    let request = PaintRegion { stamp: stamp(layer, RegionCode(3)), edge_cells: 4 };
    assert!(matches!(paint_region_request(&registry, &mut layers, &request, &vec![]), Ok(None)));
    assert_eq!(layers.categorical_tiles.len(), 1);
    assert_eq!(layers.categorical_tiles[0].1.cell_count(), 16);
}

#[test]
fn a_stroke_changes_each_cell_once_in_row_order_and_repeats_to_nothing() {
    let mut tile = RegionTile::empty(TileId::root(), 4);
    let s = stamp(LayerId(5), RegionCode(3));
    let covered = vec![(1, 0), (2, 0), (0, 1), (1, 1), (2, 2)];
    let patch = paint_region(&mut tile, s, &covered);
    let indices: Vec<u32> = patch.changes.iter().map(|c| c.index).collect();
    assert_eq!(indices, vec![1, 2, 4, 5, 10]);
    assert!(patch.changes.iter().all(|c| c.before == RegionCode(0) && c.after == RegionCode(3)));
    let painted = tile.cells().to_vec();
    let revision = tile.revision;
    let again = paint_region(&mut tile, s, &covered);
    assert!(again.changes.is_empty());
    assert_eq!(tile.cells().to_vec(), painted);
    assert_eq!(tile.revision, revision);
}

#[test]
fn a_stroke_that_changes_cells_is_recorded_and_announced() {
    let mut registry = LayerRegistry::default();
    let mut layers = LayerStore::default();
    let mut definition = LayerDefinition::categorical("Kingdoms".to_string());
    let region = definition.add_region("Kovia".to_string(), [224, 105, 72, 255]);
    let layer = registry.insert(definition);
    let mut history: Option<kovia::history::EditHistory<kovia::edits::AtlasUndo>> = Some(kovia::history::EditHistory::new());
    let request = PaintRegion { stamp: stamp(layer, region), edge_cells: 4 };
    let changed = kovia::layers::on_paint_region(&registry, &mut layers, &mut history, &request, &vec![(1, 1), (2, 1)])
        .unwrap()
        .unwrap();
    assert_eq!((changed.layer, changed.revision), (layer, 1));
    assert_eq!(history.as_ref().unwrap().undo_len(), 1);
    let again = kovia::layers::on_paint_region(&registry, &mut layers, &mut history, &request, &vec![(1, 1)]).unwrap();
    assert!(again.is_none());
    assert_eq!(history.as_ref().unwrap().undo_len(), 1);
}

#[test]
fn palettes_read_in_any_order_come_out_by_code() {
    use_palette();
}

fn use_palette() {
    let region = |code: u16, name: &str| kovia::layers::RegionDefinition { code: RegionCode(code), name: name.to_string(), color_rgba: [0, 0, 0, 255] };
    let palette = kovia::layers::palette_from_regions(vec![region(3, "c"), region(1, "a"), region(2, "b"), region(1, "a2")]);
    let codes: Vec<(u16, &str)> = palette.iter().map(|r| (r.code.0, r.name.as_str())).collect();
    assert_eq!(codes, vec![(1, "a2"), (2, "b"), (3, "c")]);
}

#[test]
fn coverage_must_come_row_by_row() {
    assert!(kovia::layers::cells_ascending(&vec![(1, 0), (3, 0), (0, 1)], 4));
    assert!(!kovia::layers::cells_ascending(&vec![(1, 0), (0, 0)], 4));
    assert!(!kovia::layers::cells_ascending(&vec![(1, 1), (1, 1)], 4));
    assert!(kovia::layers::cells_ascending(&vec![], 4));
}
