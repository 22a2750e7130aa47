use kovia::data::InspectorTab;
use kovia::protocol::{FeatureId, FeatureSummary, MapEvent, MapSnapshot};
use kovia::workspace::{map_event_text, save_state_label, selection_line, Kovia, Message, ShortcutKey};

#[test]
fn the_workspace_opens_on_the_chat() {
    let w = Kovia::new();
    assert_eq!(w.selected_nav, 1);
    assert_eq!(w.inspector_tab, InspectorTab::Context);
    assert_eq!(w.context_chips, vec!["Eastern Rift", "Clifflands", "3 notes", "Map selection"]);
    assert!(w.geography_open && !w.command_open && !w.recording);
    assert_eq!(w.inspected_turn, 1);
    assert!(w.notice.is_none());
}

#[test]
fn sending_a_blank_draft_does_nothing() {
    let mut w = Kovia::new();
    assert!(!w.update(Message::Send("   ".to_string())));
    assert!(w.notice.is_none());
    assert!(w.update(Message::Send(" hello ".to_string())));
    assert_eq!(w.notice.as_deref(), Some("Draft prompt added to the local UI thread"));
}

#[test]
fn navigation_and_inspector_messages() {
    let mut w = Kovia::new();
    w.update(Message::SelectNav(2));
    assert_eq!(w.inspector_tab, InspectorTab::Atlas);
    w.update(Message::InspectTurn(0));
    assert_eq!(w.inspector_tab, InspectorTab::Context);
    w.update(Message::InspectTurn(3));
    assert_eq!(w.inspector_tab, InspectorTab::Sources);
    assert_eq!(w.inspected_turn, 3);
    w.update(Message::ToggleCommandPalette);
    assert!(w.command_open);
    w.update(Message::SelectInspector(InspectorTab::Timeline));
    assert!(!w.command_open);
    assert_eq!(w.inspector_tab, InspectorTab::Timeline);
}

#[test]
fn context_chips_are_added_once_and_removed_by_index() {
    let mut w = Kovia::new();
    w.update(Message::AddContext("Eastern Rift"));
    assert_eq!(w.context_chips.len(), 4);
    w.update(Message::AddContext("This answer"));
    assert_eq!(w.context_chips.len(), 5);
    w.update(Message::RemoveContext(0));
    assert_eq!(w.context_chips[0], "Clifflands");
    w.update(Message::RemoveContext(99));
    assert_eq!(w.context_chips.len(), 4);
}

#[test]
fn keyboard_shortcuts_toggle_the_palette() {
    let mut w = Kovia::new();
    w.update(Message::KeyPressed { key: ShortcutKey::K, command: true, repeat: false });
    assert!(w.command_open);
    w.update(Message::KeyPressed { key: ShortcutKey::K, command: true, repeat: true });
    assert!(w.command_open);
    w.update(Message::KeyPressed { key: ShortcutKey::K, command: false, repeat: false });
    assert!(w.command_open);
    w.update(Message::KeyPressed { key: ShortcutKey::Escape, command: false, repeat: false });
    assert!(!w.command_open);
    w.update(Message::RunAction("Note draft created"));
    assert_eq!(w.notice.as_deref(), Some("Note draft created"));
    w.update(Message::RuntimeReady);
    assert_eq!(w.notice.as_deref(), Some("Iced task runtime connected"));
}

#[test]
fn map_events_become_notices() {
    let mut w = Kovia::new();
    w.apply_map_event(&MapEvent::CommandRejected { error: "Nothing to undo".to_string() });
    assert_eq!(w.notice.as_deref(), Some("Atlas rejected command: Nothing to undo"));
    assert_eq!(
        map_event_text(&MapEvent::ProjectIoFailed { operation: "load".to_string(), error: "missing".to_string() }),
        "Could not load project: missing"
    );
    assert_eq!(map_event_text(&MapEvent::ProjectChanged { dirty: false }), "Project is saved");
    assert_eq!(map_event_text(&MapEvent::SelectionChanged(None)), "Atlas selection cleared");
    assert_eq!(map_event_text(&MapEvent::ProjectSaved { path: "w.json".to_string() }), "Saved w.json");
}

#[test]
fn the_atlas_status_bar_names_the_selection() {
    let mut snapshot = MapSnapshot::default();
    assert_eq!(selection_line(&snapshot), "No feature selected");
    assert_eq!(save_state_label(&snapshot), "Saved");
    snapshot.selected_feature = Some(FeatureSummary { id: FeatureId(1), name: "Talar".to_string(), kind: "Settlement".to_string() });
    snapshot.project_dirty = true;
    assert_eq!(selection_line(&snapshot), "Talar · Settlement");
    assert_eq!(save_state_label(&snapshot), "Unsaved");
}

#[test]
fn the_workspace_opens_with_the_initial_map_snapshot() {
    let w = Kovia::new();
    assert_eq!(w.map_snapshot.revision, 0);
    assert!(w.map_snapshot.selected_feature.is_none());
    assert!(w.map_snapshot.available_layers.is_empty());
    assert_eq!(w.map_snapshot.status, "Atlas ready");
    assert!(!w.map_snapshot.project_dirty && !w.map_snapshot.undo_available && !w.map_snapshot.redo_available);
}
