use kovia::editor::{LayerSelection, StatusLine};
use kovia::layers::{LayerDefinition, DEFAULT_OPACITY_BITS};
use kovia::panels::{project_bar_step, region_request, select_layer, settings_request, ProjectBarAction, ProjectBarEvent};
use kovia::protocol::{LayerId, RegionCode};

#[test]
fn loading_over_unsaved_edits_needs_the_discard_confirmation() {
    let mut status = StatusLine("Ready".to_string());
    assert_eq!(project_bar_step(true, false, ProjectBarEvent::Load, &mut status), (true, ProjectBarAction::ConfirmDiscard));
    assert_eq!(status.0, "Unsaved changes: confirm load to discard them");
    assert_eq!(project_bar_step(true, true, ProjectBarEvent::DiscardAndLoad, &mut status), (false, ProjectBarAction::Load));
    assert_eq!(project_bar_step(false, false, ProjectBarEvent::Load, &mut status), (false, ProjectBarAction::Load));
    assert_eq!(project_bar_step(true, true, ProjectBarEvent::Save, &mut status), (false, ProjectBarAction::Save));
    assert_eq!(project_bar_step(true, false, ProjectBarEvent::DiscardAndLoad, &mut status), (false, ProjectBarAction::Nothing));
    assert_eq!(status.0, "Unsaved changes: confirm load to discard them");
}

#[test]
fn choosing_a_layer_selects_its_lowest_region() {
    let mut definition = LayerDefinition::categorical("Kingdoms".to_string());
    let mut selection = LayerSelection { layer: None, region: Some(RegionCode(9)) };
    select_layer(&mut selection, LayerId(4), &definition);
    assert_eq!(selection, LayerSelection { layer: Some(LayerId(4)), region: None });
    let first = definition.add_region("Kovia".to_string(), [1, 2, 3, 4]);
    definition.add_region("Talar".to_string(), [1, 2, 3, 4]);
    select_layer(&mut selection, LayerId(4), &definition);
    assert_eq!(selection.region, Some(first));
}

#[test]
fn new_regions_take_the_palette_in_turn() {
    let mut definition = LayerDefinition::categorical("Kingdoms".to_string());
    assert_eq!(region_request(LayerId(1), &definition, "A".to_string()).color_rgba, [224, 105, 72, 255]);
    for name in ["A", "B", "C", "D", "E"] {
        definition.add_region(name.to_string(), [0, 0, 0, 255]);
    }
    let request = region_request(LayerId(1), &definition, "F".to_string());
    assert_eq!(request.color_rgba, [81, 184, 166, 255]);
    assert_eq!(request.name, "F");
    definition.add_region("F".to_string(), [0, 0, 0, 255]);
    assert_eq!(region_request(LayerId(1), &definition, "G".to_string()).color_rgba, [224, 105, 72, 255]);
}

#[test]
fn only_changed_settings_are_sent() {
    let definition = LayerDefinition::categorical("Kingdoms".to_string());
    let visible = definition.visible;
    let locked = definition.locked;
    assert!(settings_request(LayerId(2), &definition, visible, locked, DEFAULT_OPACITY_BITS).is_none());
    let request = settings_request(LayerId(2), &definition, visible, !locked, 0.5f32.to_bits()).unwrap();
    assert_eq!(request.visible, None);
    assert_eq!(request.locked, Some(!locked));
    assert_eq!(request.opacity, Some(0.5f32.to_bits()));
    // the same float under another zero sign counts as unchanged
    let mut zero = LayerDefinition::categorical("Z".to_string());
    zero.opacity = 0.0f32.to_bits();
    assert!(settings_request(LayerId(2), &zero, zero.visible, zero.locked, (-0.0f32).to_bits()).is_none());
}
