//! How the editor's status line and selection react to domain events.
use vstd::prelude::*;
use crate::conversation::{decimal, decimal_chars};
use crate::editor::{LayerSelection, SelectedFeature, StatusLine};
use crate::history::HistoryOutcome;
use crate::layers::{LayerDefinition, LayerRegistry, LayerStore, RegionTile};
use crate::coordinates::TileId;
use crate::protocol::{FeatureId, LayerId, RegionCode};
use crate::text::string_of;

verus! {

/// A placed settlement becomes the selection.
pub fn select_created_feature(selected: &mut SelectedFeature, status: &mut StatusLine, feature: FeatureId)
    ensures
        final(selected).0 == Some(feature),
        final(status).0@ == "Placed settlement"@,
{
    proof {
        reveal_strlit("Placed settlement");
    }
    selected.0 = Some(feature);
    status.0 = String::from_str("Placed settlement");
}

/// A new layer becomes the selected layer, with no region chosen.
pub fn select_created_layer(selection: &mut LayerSelection, status: &mut StatusLine, layer: LayerId)
    ensures
        final(selection).layer == Some(layer),
        final(selection).region is None,
        final(status).0@ == "Created layer"@,
{
    proof {
        reveal_strlit("Created layer");
    }
    selection.layer = Some(layer);
    selection.region = None;
    status.0 = String::from_str("Created layer");
}

/// A new region becomes the selected region of its layer.
pub fn select_created_region(selection: &mut LayerSelection, status: &mut StatusLine, layer: LayerId, region: RegionCode)
    ensures
        final(selection).layer == Some(layer),
        final(selection).region == Some(region),
        final(status).0@ == "Created region"@,
{
    proof {
        reveal_strlit("Created region");
    }
    selection.layer = Some(layer);
    selection.region = Some(region);
    status.0 = String::from_str("Created region");
}

/// Status after a history step.
pub open spec fn history_status(outcome: HistoryOutcome) -> Seq<char> {
    match outcome {
        HistoryOutcome::Undid => "Undid edit"@,
        HistoryOutcome::Redid => "Redid edit"@,
        HistoryOutcome::NothingToUndo => "Nothing to undo"@,
        HistoryOutcome::NothingToRedo => "Nothing to redo"@,
        HistoryOutcome::Failed(error) => error@,
    }
}

pub fn show_history_outcome(status: &mut StatusLine, outcome: &HistoryOutcome)
    ensures
        final(status).0@ == history_status(*outcome),
{
    proof {
        reveal_strlit("Undid edit");
        reveal_strlit("Redid edit");
        reveal_strlit("Nothing to undo");
        reveal_strlit("Nothing to redo");
    }
    status.0 = match outcome {
        HistoryOutcome::Undid => String::from_str("Undid edit"),
        HistoryOutcome::Redid => String::from_str("Redid edit"),
        HistoryOutcome::NothingToUndo => String::from_str("Nothing to undo"),
        HistoryOutcome::NothingToRedo => String::from_str("Nothing to redo"),
        HistoryOutcome::Failed(error) => error.clone(),
    };
}

/// A refused edit shows its reason.
pub fn show_failure(status: &mut StatusLine, error: &String)
    ensures
        final(status).0@ == error@,
{
    status.0 = error.clone();
}

pub fn show_project_saved(status: &mut StatusLine, path: &str)
    ensures
        final(status).0@ == "Saved "@ + path@,
{
    proof {
        reveal_strlit("Saved ");
    }
    let mut text = String::from_str("Saved ");
    text.append(path);
    status.0 = text;
}

pub fn show_project_loaded(status: &mut StatusLine, path: &str)
    ensures
        final(status).0@ == "Loaded "@ + path@,
{
    proof {
        reveal_strlit("Loaded ");
    }
    let mut text = String::from_str("Loaded ");
    text.append(path);
    status.0 = text;
}

pub fn show_project_failure(status: &mut StatusLine, operation: &str, error: &str)
    ensures
        final(status).0@ == "Could not "@ + operation@ + " project: "@ + error@,
{
    proof {
        reveal_strlit("Could not ");
        reveal_strlit(" project: ");
    }
    let mut text = String::from_str("Could not ");
    text.append(operation);
    text.append(" project: ");
    text.append(error);
    status.0 = text;
}

pub fn show_hydrology_outcome(status: &mut StatusLine, river_segments: usize)
    ensures
        final(status).0@ == "Computed "@ + decimal(river_segments as nat) + " river segments"@,
{
    proof {
        reveal_strlit("Computed ");
        reveal_strlit(" river segments");
    }
    let mut text = String::from_str("Computed ");
    let count = string_of(&decimal_chars(river_segments));
    text.append(count.as_str());
    text.append(" river segments");
    status.0 = text;
}

pub fn show_hydrology_failure(status: &mut StatusLine)
    ensures
        final(status).0@ == "Hydrology tile is not loaded"@,
{
    proof {
        reveal_strlit("Hydrology tile is not loaded");
    }
    status.0 = String::from_str("Hydrology tile is not loaded");
}

pub fn show_erosion_failure(status: &mut StatusLine)
    ensures
        final(status).0@ == "Erosion tile is not loaded"@,
{
    proof {
        reveal_strlit("Erosion tile is not loaded");
    }
    status.0 = String::from_str("Erosion tile is not loaded");
}

/// The mask and definition drawn over a tile: those of the selected layer,
/// when it is visible and has a mask there.
pub open spec fn overlay_of(
    registry: LayerRegistry,
    layers: LayerStore,
    selection: LayerSelection,
    tile: TileId,
) -> Option<(RegionTile, LayerDefinition)> {
    match selection.layer {
        None => None,
        Some(layer) => match registry.get(layer) {
            None => None,
            Some(d) => if !d.visible {
                None
            } else {
                match layers.tile_of(layer, tile) {
                    Some(t) => Some((t, d)),
                    None => None,
                }
            },
        },
    }
}

pub fn selected_region_overlay<'a>(
    registry: &'a LayerRegistry,
    layers: &'a LayerStore,
    selection: &LayerSelection,
    tile: TileId,
) -> (r: Option<(&'a RegionTile, &'a LayerDefinition)>)
    requires
        registry.wf(),
        layers.wf(),
    ensures
        match r {
            Some((t, d)) => overlay_of(*registry, *layers, *selection, tile) == Some((*t, *d)),
            None => overlay_of(*registry, *layers, *selection, tile) is None,
        },
{
    let layer = match selection.layer {
        Some(layer) => layer,
        None => return None,
    };
    let i = match registry.position(layer) {
        Some(i) => i,
        None => return None,
    };
    let definition = &registry.definitions[i];
    if !definition.visible {
        return None;
    }
    match layers.position(layer, tile) {
        Some(k) => Some((&layers.categorical_tiles[k].1, definition)),
        None => None,
    }
}

} // verus!
