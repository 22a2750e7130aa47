use kovia::coordinates::TileId;
use kovia::terrain::{apply_height_patch, f32_equal, write_heights};

#[test]
fn height_patches_undo_and_redo_an_edit() {
    let mut samples: Vec<u32> = vec![0.0f32.to_bits(); 9];
    let untouched = samples.clone();
    let proposed = vec![(4, 100.0f32.to_bits()), (5, 0.0f32.to_bits()), (1, 40.0f32.to_bits()), (4, 80.0f32.to_bits())];
    let patch = write_heights(&mut samples, TileId::root(), &proposed);
    assert_eq!(patch.changes.len(), 3);
    assert_eq!(f32::from_bits(samples[4]), 80.0);
    assert_eq!(f32::from_bits(samples[1]), 40.0);
    let edited = samples.clone();
    apply_height_patch(&mut samples, &patch, false);
    assert_eq!(samples, untouched);
    apply_height_patch(&mut samples, &patch, true);
    assert_eq!(samples, edited);
}

#[test]
fn unchanged_heights_compare_as_floats() {
    let mut samples: Vec<u32> = vec![0.0f32.to_bits(); 2];
    let patch = write_heights(&mut samples, TileId::root(), &vec![(0, (-0.0f32).to_bits()), (1, 0.0f32.to_bits())]);
    assert!(patch.changes.is_empty());
    assert_eq!(samples, vec![0, 0]);
    assert!(f32_equal(0.0f32.to_bits(), (-0.0f32).to_bits()));
    assert!(!f32_equal(f32::NAN.to_bits(), f32::NAN.to_bits()));
    let mut nan: Vec<u32> = vec![f32::NAN.to_bits()];
    let patch = write_heights(&mut nan, TileId::root(), &vec![(0, f32::NAN.to_bits())]);
    assert_eq!(patch.changes.len(), 1);
}

#[test]
fn history_is_optional_and_uses_domain_owned_undo_behavior() {
    use_height_history();
}

fn use_height_history() {
    let flat = kovia::terrain::HeightSamples { tile: TileId::root(), samples: vec![0.0f32.to_bits(); 81], revision: 0 };
    // without a history the edit still happens and nothing is recorded
    let mut tile = kovia::terrain::HeightSamples { tile: flat.tile, samples: flat.samples.clone(), revision: 0 };
    let mut none: Option<kovia::history::EditHistory<kovia::edits::AtlasUndo>> = None;
    let changed = kovia::terrain::on_height_write(&mut tile, &mut none, &vec![(40, 100.0f32.to_bits())]).unwrap();
    assert_eq!(changed.revision, 1);
    assert!(none.is_none());
    assert_eq!(f32::from_bits(tile.samples[40]), 100.0);

    // with a history the height patch undoes itself
    let mut tile = kovia::terrain::HeightSamples { tile: flat.tile, samples: flat.samples.clone(), revision: 0 };
    let patch = write_heights(&mut tile.samples, tile.tile, &vec![(40, 100.0f32.to_bits()), (41, 50.0f32.to_bits())]);
    tile.revision = 1;
    let mut history = Some(kovia::history::EditHistory::new());
    history.as_mut().unwrap().record(patch);
    let max = tile.samples.iter().map(|b| f32::from_bits(*b)).fold(f32::MIN, f32::max);
    assert!(max > 0.0);
    let outcome = kovia::history::HistoryStep::Undo.apply(&mut history, &mut tile);
    assert!(matches!(outcome, kovia::history::HistoryOutcome::Undid));
    let max = tile.samples.iter().map(|b| f32::from_bits(*b)).fold(f32::MIN, f32::max);
    assert_eq!(max, 0.0);
    assert_eq!(tile.samples, flat.samples);
    assert_eq!(tile.revision, 2);
}

#[test]
fn a_proposal_must_match_the_tile_and_records_only_changes() {
    let mut tile = kovia::terrain::HeightSamples { tile: TileId::root(), samples: vec![0.0f32.to_bits(); 4], revision: 3 };
    let mut history = Some(kovia::history::EditHistory::new());
    let same = vec![0.0f32.to_bits(), (-0.0f32).to_bits(), 0.0f32.to_bits(), 0.0f32.to_bits()];
    assert_eq!(kovia::terrain::apply_height_proposal(&mut tile, &mut history, 3, &same), Ok(None));
    assert_eq!(tile.revision, 3);
    assert_eq!(history.as_ref().unwrap().undo_len(), 0);
    let stale = kovia::terrain::apply_height_proposal(&mut tile, &mut history, 2, &same);
    assert_eq!(stale, Err(kovia::terrain::TerrainEditError::StaleProposal { expected: 2, actual: 3 }));
    let short = kovia::terrain::apply_height_proposal(&mut tile, &mut history, 3, &vec![0]);
    assert_eq!(short, Err(kovia::terrain::TerrainEditError::InvalidProposalSize));
    let raised = vec![0.0f32.to_bits(), 2.0f32.to_bits(), 0.0f32.to_bits(), 1.0f32.to_bits()];
    let changed = kovia::terrain::apply_height_proposal(&mut tile, &mut history, 3, &raised).unwrap().unwrap();
    assert_eq!(changed, kovia::terrain::TerrainChanged { tile: TileId::root(), revision: 4 });
    assert_eq!(tile.samples, raised);
    assert_eq!(history.as_ref().unwrap().undo_len(), 1);
}
