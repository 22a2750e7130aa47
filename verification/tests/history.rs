use kovia::history::{nothing_to_do, EditHistory, HistoryOutcome, HistoryStep};

#[test]
fn recording_clears_redo_and_steps_move_actions() {
    let mut h: EditHistory<u32> = EditHistory::new();
    h.record(1);
    h.record(2);
    let a = h.take_step(HistoryStep::Undo).unwrap();
    assert_eq!(a, 2);
    assert!(matches!(h.complete_step(HistoryStep::Undo, a, Ok(())), HistoryOutcome::Undid));
    assert_eq!((h.undo_len(), h.redo_len()), (1, 1));
    h.record(3);
    assert_eq!((h.undo_len(), h.redo_len()), (2, 0));
    assert!(h.take_step(HistoryStep::Redo).is_none());
    assert!(matches!(nothing_to_do(HistoryStep::Redo), HistoryOutcome::NothingToRedo));
}

#[test]
fn a_failed_step_keeps_the_action_where_it_was() {
    let mut h: EditHistory<u32> = EditHistory::new();
    h.record(7);
    let a = h.take_step(HistoryStep::Undo).unwrap();
    let outcome = h.complete_step(HistoryStep::Undo, a, Err("gone".to_string()));
    assert!(matches!(outcome, HistoryOutcome::Failed(ref e) if e == "gone"));
    assert_eq!((h.undo_len(), h.redo_len()), (1, 0));
    h.clear();
    assert_eq!((h.undo_len(), h.redo_len()), (0, 0));
}
