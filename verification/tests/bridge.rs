use kovia::bridge::{
    decide_interaction, editor_tool_for, feature_kind_name, map_tool_for, refresh_snapshot, selection_needed,
    selection_status, valid_brush, AtlasRequest, BridgeState, MapAction, PointerButtons,
};
use kovia::coordinates::{CubeFace, SurfacePosition};
use kovia::editor::{EditorTool, LayerSelection, SelectedFeature, StatusLine, TerrainBrushSettings};
use kovia::features::{place_settlement, FeatureKind, FeatureStore, PlaceSettlement, SettlementKind};
use kovia::history::HistoryOutcome;
use kovia::layers::{create_layer, CreateLayer, LayerRegistry};
use kovia::protocol::{BrushSettings, CameraSummary, FeatureId, LayerId, MapCommand, MapEvent, MapInput, MapTool, PointerButton, RegionCode};

#[test]
fn rejects_non_finite_or_non_positive_brushes() {
    assert!(valid_brush(BrushSettings::default()));
    assert!(!valid_brush(BrushSettings { radius_cells: 0.0f32.to_bits(), strength: 1.0f32.to_bits() }));
    assert!(!valid_brush(BrushSettings { radius_cells: 1.0f32.to_bits(), strength: f32::NAN.to_bits() }));
}

#[test]
fn brush_validity_matches_float_tests() {
    for r in [1.0f32, -1.0, 0.0, -0.0, f32::INFINITY, f32::MIN_POSITIVE, 1e-45, f32::MAX, f32::NAN] {
        let expected = r.is_finite() && r > 0.0;
        assert_eq!(valid_brush(BrushSettings { radius_cells: r.to_bits(), strength: 2.0f32.to_bits() }), expected, "{r}");
    }
}

#[test]
fn tools_map_both_ways() {
    for tool in [MapTool::Navigate, MapTool::Sculpt, MapTool::Regions, MapTool::Settlement] {
        assert_eq!(map_tool_for(editor_tool_for(tool)), tool);
    }
    assert_eq!(editor_tool_for(MapTool::Settlement), EditorTool::City);
}

#[test]
fn commands_are_accepted_or_rejected_with_a_revision() {
    let mut bridge = BridgeState::new();
    let mut tool = EditorTool::default();
    let mut brush = TerrainBrushSettings::default();
    let mut status = StatusLine::default();
    bridge.send_command(MapCommand::SetTool(MapTool::Regions));
    bridge.send_command(MapCommand::SetBrush(BrushSettings { radius_cells: 0, strength: 5 }));
    bridge.send_command(MapCommand::SetBrush(BrushSettings { radius_cells: 4.0f32.to_bits(), strength: 9.0f32.to_bits() }));
    bridge.send_command(MapCommand::Undo);
    bridge.send_command(MapCommand::SaveProject);
    let requests = bridge.process_commands(&mut tool, &mut brush, &mut status);
    assert_eq!(requests, vec![AtlasRequest::Undo, AtlasRequest::SaveProject]);
    assert_eq!(tool, EditorTool::Regions);
    assert_eq!(f32::from_bits(brush.radius_cells), 4.0);
    assert_eq!(f32::from_bits(brush.strength), 9.0);
    assert_eq!(status.0, "Brush radius and strength must be finite and positive");
    assert_eq!(bridge.revision, 4);
    let events = bridge.take_events();
    assert_eq!(events.len(), 5);
    assert!(matches!(events[0], MapEvent::CommandAccepted { revision: 1 }));
    assert!(matches!(&events[1], MapEvent::CommandRejected { error } if error == "Brush radius and strength must be finite and positive"));
    assert!(matches!(events[4], MapEvent::CommandAccepted { revision: 4 }));
    assert!(bridge.commands.is_empty());
    assert!(bridge.take_events().is_empty());
}

#[test]
fn history_outcomes_are_reported() {
    let mut bridge = BridgeState::new();
    bridge.note_history(&HistoryOutcome::Undid);
    bridge.note_history(&HistoryOutcome::NothingToRedo);
    bridge.note_history(&HistoryOutcome::Failed("gone".to_string()));
    bridge.note_terrain_changed();
    let events = bridge.take_events();
    assert!(matches!(events[0], MapEvent::CommandAccepted { revision: 1 }));
    assert!(matches!(&events[1], MapEvent::CommandRejected { error } if error == "Nothing to redo"));
    assert!(matches!(&events[2], MapEvent::CommandRejected { error } if error == "gone"));
    assert!(matches!(events[3], MapEvent::CommandAccepted { revision: 2 }));
}

#[test]
fn created_features_become_the_selection() {
    let mut bridge = BridgeState::new();
    let mut selected = SelectedFeature::default();
    bridge.select_feature(&mut selected, FeatureId(9));
    assert_eq!(selected.0, Some(FeatureId(9)));
    bridge.note_project_failed("save".to_string(), "disk full".to_string());
    let events = bridge.take_events();
    assert!(matches!(events[0], MapEvent::SelectionChanged(Some(FeatureId(9)))));
    assert!(matches!(&events[1], MapEvent::ProjectIoFailed { operation, error } if operation == "save" && error == "disk full"));
}

#[test]
fn buttons_track_presses_and_focus() {
    let mut buttons = PointerButtons::new();
    let at = [0u32, 0u32];
    buttons.observe(&MapInput::PointerDown { physical_position: at, button: PointerButton::Left });
    assert!(buttons.left_down && buttons.left_just_pressed);
    buttons.finish_frame();
    buttons.observe(&MapInput::PointerDown { physical_position: at, button: PointerButton::Left });
    assert!(!buttons.left_just_pressed);
    buttons.observe(&MapInput::PointerDown { physical_position: at, button: PointerButton::Right });
    buttons.observe(&MapInput::FocusChanged(false));
    assert!(!buttons.left_down && !buttons.right_down && !buttons.focused);
    buttons.observe(&MapInput::FocusChanged(true));
    assert!(buttons.focused);
}

#[test]
fn interaction_decisions_follow_the_tool() {
    let none = LayerSelection::default();
    let chosen = LayerSelection { layer: Some(LayerId(1)), region: Some(RegionCode(2)) };
    assert_eq!(decide_interaction(EditorTool::Sculpt, true, Some(FeatureId(3)), true, false, none), MapAction::Select(FeatureId(3)));
    assert_eq!(decide_interaction(EditorTool::Sculpt, false, None, false, false, none), MapAction::EndStroke);
    assert_eq!(decide_interaction(EditorTool::Sculpt, false, None, true, true, none), MapAction::Skip);
    assert_eq!(decide_interaction(EditorTool::Sculpt, false, None, true, false, none), MapAction::Sculpt);
    assert_eq!(decide_interaction(EditorTool::Regions, false, None, true, false, none), MapAction::NeedSelection);
    assert_eq!(
        decide_interaction(EditorTool::Regions, false, None, true, false, chosen),
        MapAction::Paint { layer: LayerId(1), region: RegionCode(2) }
    );
    assert_eq!(decide_interaction(EditorTool::City, true, None, true, false, none), MapAction::PlaceSettlement);
    assert_eq!(decide_interaction(EditorTool::City, false, None, true, false, none), MapAction::Skip);
    assert_eq!(decide_interaction(EditorTool::Navigate, true, None, true, false, none), MapAction::Skip);
    assert_eq!(selection_needed(), "Select a layer and region first");
}

#[test]
fn snapshot_lists_layers_and_the_selection() {
    let mut registry = LayerRegistry::default();
    let a = create_layer(&mut registry, &CreateLayer { name: "Realms".to_string() }).layer;
    let b = create_layer(&mut registry, &CreateLayer { name: "Rivers".to_string() }).layer;
    registry.ordering.push(LayerId(77));
    let mut features = FeatureStore::default();
    let request = PlaceSettlement {
        name: "Talar".to_string(),
        position: SurfacePosition { face: CubeFace::PositiveY, u: 0, v: 0, altitude_m: 0 },
        kind: SettlementKind::Port,
        population: None,
        layer: None,
    };
    let (created, _) = place_settlement(&mut features, &request).unwrap();
    assert_eq!(selection_status(&features, created.feature), "Selected Talar");
    assert_eq!(selection_status(&features, FeatureId(5)), "Feature selected");
    let snapshot = refresh_snapshot(
        7,
        EditorTool::City,
        &TerrainBrushSettings::default(),
        &LayerSelection { layer: Some(b), region: None },
        &SelectedFeature(Some(created.feature)),
        &features,
        &registry,
        1,
        0,
        true,
        &StatusLine::default(),
        CameraSummary::default(),
    );
    assert_eq!(snapshot.revision, 7);
    assert_eq!(snapshot.active_tool, MapTool::Settlement);
    assert_eq!(snapshot.available_layers.len(), 2);
    assert_eq!(snapshot.available_layers[0].id, a);
    assert_eq!(snapshot.available_layers[1].name, "Rivers");
    assert_eq!(snapshot.selected_layer.unwrap().id, b);
    let selected = snapshot.selected_feature.unwrap();
    assert_eq!(selected.name, "Talar");
    assert_eq!(selected.kind, "Settlement");
    assert!(snapshot.undo_available && !snapshot.redo_available && snapshot.project_dirty);
    assert_eq!(snapshot.status, "Ready");
    assert_eq!(feature_kind_name(&FeatureKind::SeaRoute), "Sea route");
}
