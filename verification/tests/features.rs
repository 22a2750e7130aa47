use kovia::coordinates::{CubeFace, SurfacePosition};
use kovia::features::{
    delete_feature, place_settlement, update_settlement, visible_from_level, DeleteFeature, FeatureKind,
    FeatureStore, FeatureUndo, PlaceSettlement, SettlementKind, UpdateSettlement,
};
use kovia::edits::AtlasUndo;
use kovia::features::{on_delete_feature, on_place_settlement, on_update_settlement};
use kovia::history::{EditHistory, HistoryOutcome, HistoryStep};
use kovia::protocol::FeatureId;

fn settlement(name: &str, u: f64, v: f64) -> PlaceSettlement {
    PlaceSettlement {
        name: name.into(),
        position: SurfacePosition {
            face: CubeFace::PositiveY,
            u: u.to_bits(),
            v: v.to_bits(),
            altitude_m: 100.0f32.to_bits(),
        },
        kind: SettlementKind::Town,
        population: Some(2_000),
        layer: None,
    }
}

fn step(history: &mut EditHistory<FeatureUndo>, store: &mut FeatureStore, which: HistoryStep) -> HistoryOutcome {
    match history.take_step(which) {
        Some(action) => {
            let result = match which {
                HistoryStep::Undo => action.undo(store),
                HistoryStep::Redo => action.redo(store),
            }
            .map(|_| ());
            history.complete_step(which, action, result)
        }
        None => kovia::history::nothing_to_do(which),
    }
}

#[test]
fn settlement_create_update_delete_and_undo_use_domain_events() {
    let mut store = FeatureStore::default();
    let mut history: EditHistory<FeatureUndo> = EditHistory::new();
    let (_, entry) = place_settlement(&mut store, &settlement("Talar", 0.1, -0.2)).unwrap();
    history.record(entry);
    let id = store.features[0].id;

    let (_, entry) = update_settlement(
        &mut store,
        &UpdateSettlement {
            feature: id,
            name: "New Talar".into(),
            kind: SettlementKind::Capital,
            population: Some(12_000),
        },
    )
    .unwrap()
    .unwrap();
    history.record(entry);
    assert_eq!(store.find(id).unwrap().name, "New Talar");

    let (_, entry) = delete_feature(&mut store, &DeleteFeature { feature: id }).unwrap();
    history.record(entry);
    assert!(store.features.is_empty());
    assert!(matches!(step(&mut history, &mut store, HistoryStep::Undo), HistoryOutcome::Undid));
    assert_eq!(store.find(id).unwrap().name, "New Talar");
}

#[test]
fn placing_needs_a_name_and_sets_the_drawing_level() {
    let mut store = FeatureStore::default();
    let err = place_settlement(&mut store, &settlement("   ", 0.0, 0.0)).unwrap_err();
    assert_eq!(err, "settlement name cannot be empty");
    assert!(store.features.is_empty());

    let (created, _) = place_settlement(&mut store, &settlement("  Hyrel ", 0.0, 0.0)).unwrap();
    let f = store.find(created.feature).unwrap();
    assert_eq!(f.name, "Hyrel");
    assert_eq!(f.visible_from_level, 4);
    assert_eq!(f.kind, FeatureKind::Settlement { kind: SettlementKind::Town, population: Some(2_000) });
    assert_eq!(visible_from_level(SettlementKind::Capital), 0);
    assert_eq!(visible_from_level(SettlementKind::Port), 2);
    assert_eq!(visible_from_level(SettlementKind::Hamlet), 6);
}

#[test]
fn features_are_kept_in_id_order() {
    let mut store = FeatureStore::default();
    for name in ["A", "B", "C", "D"] {
        place_settlement(&mut store, &settlement(name, 0.0, 0.0)).unwrap();
    }
    assert_eq!(store.features.len(), 4);
    for pair in store.features.windows(2) {
        assert!(pair[0].id.0 < pair[1].id.0);
    }
}

#[test]
fn updates_report_missing_features_and_unchanged_values() {
    let mut store = FeatureStore::default();
    let missing = UpdateSettlement { feature: FeatureId(1), name: "X".into(), kind: SettlementKind::Town, population: None };
    assert_eq!(update_settlement(&mut store, &missing).unwrap_err(), "selected feature no longer exists");
    let (created, _) = place_settlement(&mut store, &settlement("Talar", 0.0, 0.0)).unwrap();
    let same = UpdateSettlement {
        feature: created.feature,
        name: " Talar ".into(),
        kind: SettlementKind::Town,
        population: Some(2_000),
    };
    assert!(update_settlement(&mut store, &same).unwrap().is_none());
    let blank = UpdateSettlement { name: " ".into(), ..same };
    assert_eq!(update_settlement(&mut store, &blank).unwrap_err(), "settlement name cannot be empty");
    assert_eq!(delete_feature(&mut store, &DeleteFeature { feature: FeatureId(3) }).unwrap_err(), "selected feature no longer exists");
}

#[test]
fn undoing_a_placement_twice_fails_the_second_time() {
    let mut store = FeatureStore::default();
    let (created, entry) = place_settlement(&mut store, &settlement("Talar", 0.0, 0.0)).unwrap();
    assert_eq!(entry.undo(&mut store).unwrap().feature, created.feature);
    assert!(store.features.is_empty());
    assert_eq!(entry.undo(&mut store).unwrap_err(), "feature needed by history is no longer present");
    entry.redo(&mut store).unwrap();
    assert_eq!(store.find(created.feature).unwrap().name, "Talar");
}

#[test]
fn undo_then_redo_of_an_update_restores_each_version() {
    let mut store = FeatureStore::default();
    let mut history: EditHistory<FeatureUndo> = EditHistory::new();
    let (created, entry) = place_settlement(&mut store, &settlement("Talar", 0.0, 0.0)).unwrap();
    history.record(entry);
    let (_, entry) = update_settlement(
        &mut store,
        &UpdateSettlement { feature: created.feature, name: "Talaria".into(), kind: SettlementKind::City, population: None },
    )
    .unwrap()
    .unwrap();
    history.record(entry);
    step(&mut history, &mut store, HistoryStep::Undo);
    assert_eq!(store.find(created.feature).unwrap().name, "Talar");
    step(&mut history, &mut store, HistoryStep::Redo);
    let f = store.find(created.feature).unwrap();
    assert_eq!(f.name, "Talaria");
    assert_eq!(f.kind, FeatureKind::Settlement { kind: SettlementKind::City, population: None });
    assert!(matches!(step(&mut history, &mut store, HistoryStep::Redo), HistoryOutcome::NothingToRedo));
}

#[test]
fn placing_records_its_undo_and_announces_the_change() {
    let mut store = FeatureStore::default();
    let mut history: Option<EditHistory<AtlasUndo>> = Some(EditHistory::new());
    let (created, changed) = on_place_settlement(&mut store, &mut history, &settlement(" Talar ", 0.2, 0.1)).unwrap();
    assert_eq!(changed.feature, created.feature);
    assert_eq!(store.find(created.feature).unwrap().name, "Talar");
    let h = history.as_ref().unwrap();
    assert_eq!((h.undo_len(), h.redo_len()), (1, 0));

    let err = on_place_settlement(&mut store, &mut history, &settlement("  ", 0.0, 0.0)).unwrap_err();
    assert_eq!(err, "settlement name cannot be empty");
    assert_eq!(history.as_ref().unwrap().undo_len(), 1);
    assert_eq!(store.features.len(), 1);

    let mut none: Option<EditHistory<AtlasUndo>> = None;
    on_place_settlement(&mut store, &mut none, &settlement("Hyrel", 0.0, 0.0)).unwrap();
    assert!(none.is_none());
    assert_eq!(store.features.len(), 2);
}

#[test]
fn updating_and_deleting_record_when_something_changed() {
    let mut store = FeatureStore::default();
    let mut history: Option<EditHistory<AtlasUndo>> = Some(EditHistory::new());
    let (created, _) = on_place_settlement(&mut store, &mut history, &settlement("Talar", 0.0, 0.0)).unwrap();
    let same = UpdateSettlement { feature: created.feature, name: "Talar".into(), kind: SettlementKind::Town, population: Some(2_000) };
    assert_eq!(on_update_settlement(&mut store, &mut history, &same).unwrap(), None);
    assert_eq!(history.as_ref().unwrap().undo_len(), 1);
    let renamed = UpdateSettlement { feature: created.feature, name: "Talaria".into(), kind: SettlementKind::City, population: None };
    let changed = on_update_settlement(&mut store, &mut history, &renamed).unwrap().unwrap();
    assert_eq!(changed.feature, created.feature);
    assert_eq!(history.as_ref().unwrap().undo_len(), 2);
    let changed = on_delete_feature(&mut store, &mut history, &DeleteFeature { feature: created.feature }).unwrap();
    assert_eq!(changed.feature, created.feature);
    assert_eq!(history.as_ref().unwrap().undo_len(), 3);
    assert_eq!(
        on_delete_feature(&mut store, &mut history, &DeleteFeature { feature: created.feature }).unwrap_err(),
        "selected feature no longer exists"
    );
    assert_eq!(history.as_ref().unwrap().undo_len(), 3);
}

#[test]
fn a_history_step_runs_the_top_action_once() {
    let mut store = FeatureStore::default();
    let (created, entry) = place_settlement(&mut store, &settlement("Talar", 0.0, 0.0)).unwrap();
    let mut history: Option<EditHistory<FeatureUndo>> = None;
    assert!(matches!(HistoryStep::Undo.apply(&mut history, &mut store), HistoryOutcome::NothingToUndo));
    assert_eq!(history.as_ref().map(|h| (h.undo_len(), h.redo_len())), Some((0, 0)));
    assert_eq!(store.features.len(), 1);

    history.as_mut().unwrap().record(entry);
    assert!(matches!(HistoryStep::Undo.apply(&mut history, &mut store), HistoryOutcome::Undid));
    assert!(store.find(created.feature).is_none());
    assert_eq!(history.as_ref().map(|h| (h.undo_len(), h.redo_len())), Some((0, 1)));
    assert!(matches!(HistoryStep::Undo.apply(&mut history, &mut store), HistoryOutcome::NothingToUndo));
    assert!(matches!(HistoryStep::Redo.apply(&mut history, &mut store), HistoryOutcome::Redid));
    assert_eq!(store.find(created.feature).unwrap().name, "Talar");
    assert_eq!(history.as_ref().map(|h| (h.undo_len(), h.redo_len())), Some((1, 0)));

    // the feature disappears behind history's back: the undo fails and stays put
    store.remove(created.feature);
    let outcome = HistoryStep::Undo.apply(&mut history, &mut store);
    assert!(matches!(outcome, HistoryOutcome::Failed(ref e) if e == "feature needed by history is no longer present"));
    assert_eq!(history.as_ref().map(|h| (h.undo_len(), h.redo_len())), Some((1, 0)));
}
