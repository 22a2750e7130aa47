//! Decisions of the editor's panels: what a click on the project bar or in the
//! layer panel asks for. Drawing the panels is the shell's work.
use vstd::prelude::*;
use crate::editor::{LayerSelection, StatusLine};
use crate::layers::{ConfigureLayer, CreateRegion, LayerDefinition};
use crate::protocol::LayerId;
use crate::terrain::{f32_equal, f32_same};

verus! {

/// A click on the project bar. `DiscardAndLoad` is the button shown while a
/// discard waits for confirmation.
#[derive(Debug, Clone, Copy, PartialEq, Eq, Structural)]
pub enum ProjectBarEvent {
    Save,
    Load,
    DiscardAndLoad,
}

/// What the project bar asks for after a click.
#[derive(Debug, Clone, Copy, PartialEq, Eq, Structural)]
pub enum ProjectBarAction {
    /// Save the project.
    Save,
    /// Load the project, replacing the world.
    Load,
    /// Ask for confirmation before unsaved edits are discarded.
    ConfirmDiscard,
    /// Nothing to do.
    Nothing,
}

/// Whether a discard waits for confirmation after the click, and what is asked
/// for. Loading over unsaved edits needs the explicit discard: the first load
/// only asks for it; saving or loading ends the wait.
pub open spec fn project_bar_spec(dirty: bool, confirm_discard: bool, event: ProjectBarEvent) -> (bool, ProjectBarAction) {
    match event {
        ProjectBarEvent::Save => (false, ProjectBarAction::Save),
        ProjectBarEvent::Load => if dirty {
            (true, ProjectBarAction::ConfirmDiscard)
        } else {
            (confirm_discard, ProjectBarAction::Load)
        },
        ProjectBarEvent::DiscardAndLoad => if confirm_discard {
            (false, ProjectBarAction::Load)
        } else {
            (false, ProjectBarAction::Nothing)
        },
    }
}

/// Handles a click on the project bar. Asking for confirmation also puts the
/// reason in the status line; every other click leaves it alone.
pub fn project_bar_step(dirty: bool, confirm_discard: bool, event: ProjectBarEvent, status: &mut StatusLine) -> (r: (
    bool,
    ProjectBarAction,
))
    ensures
        r == project_bar_spec(dirty, confirm_discard, event),
        r.1 == ProjectBarAction::ConfirmDiscard ==> final(status).0@
            == "Unsaved changes: confirm load to discard them"@,
        r.1 != ProjectBarAction::ConfirmDiscard ==> final(status).0@ == old(status).0@,
{
    match event {
        ProjectBarEvent::Save => (false, ProjectBarAction::Save),
        ProjectBarEvent::Load => if dirty {
            proof {
                reveal_strlit("Unsaved changes: confirm load to discard them");
            }
            status.0 = String::from_str("Unsaved changes: confirm load to discard them");
            (true, ProjectBarAction::ConfirmDiscard)
        } else {
            (confirm_discard, ProjectBarAction::Load)
        },
        ProjectBarEvent::DiscardAndLoad => if confirm_discard {
            (false, ProjectBarAction::Load)
        } else {
            (false, ProjectBarAction::Nothing)
        },
    }
}

/// Choosing a layer in the panel selects it with its lowest region code, or
/// with no region when its palette is empty.
pub fn select_layer(selection: &mut LayerSelection, layer: LayerId, definition: &LayerDefinition)
    requires
        definition.wf(),
    ensures
        final(selection).layer == Some(layer),
        definition.regions@.len() == 0 ==> final(selection).region is None,
        definition.regions@.len() > 0 ==> {
            &&& final(selection).region == Some(definition.regions@[0].code)
            &&& forall|i: int|
                0 <= i < definition.regions@.len() ==> definition.regions@[0].code.0 <= (
                #[trigger] definition.regions@[i]).code.0
        },
{
    selection.layer = Some(layer);
    selection.region = if definition.regions.len() > 0 {
        Some(definition.regions[0].code)
    } else {
        None
    };
    proof {
        assert forall|i: int| 0 <= i < definition.regions@.len() implies definition.regions@[0].code.0 <= (
        #[trigger] definition.regions@[i]).code.0 by {
            if i > 0 {
                assert(definition.regions@[0].code.0 < definition.regions@[i].code.0);
            }
        }
    }
}

/// The colours new regions take in turn.
pub open spec fn palette_color(n: nat) -> [u8; 4] {
    let k = n % 6;
    if k == 0 {
        [224, 105, 72, 255]
    } else if k == 1 {
        [78, 150, 196, 255]
    } else if k == 2 {
        [125, 174, 92, 255]
    } else if k == 3 {
        [181, 125, 201, 255]
    } else if k == 4 {
        [220, 176, 72, 255]
    } else {
        [81, 184, 166, 255]
    }
}

/// The request the panel sends for a new region: the draft name, coloured by
/// how many regions the layer has already.
pub fn region_request(layer: LayerId, definition: &LayerDefinition, name: String) -> (r: CreateRegion)
    ensures
        r.layer == layer,
        r.name == name,
        r.color_rgba == palette_color(definition.regions@.len()),
{
    let k = definition.regions.len() % 6;
    let color_rgba: [u8; 4] = if k == 0 {
        [224, 105, 72, 255]
    } else if k == 1 {
        [78, 150, 196, 255]
    } else if k == 2 {
        [125, 174, 92, 255]
    } else if k == 3 {
        [181, 125, 201, 255]
    } else if k == 4 {
        [220, 176, 72, 255]
    } else {
        [81, 184, 166, 255]
    };
    CreateRegion { layer, name, color_rgba }
}

/// The settings request the panel sends after its checkboxes and slider were
/// read: only what differs from the layer is set, and nothing is sent when
/// nothing differs. Opacities compare as floats, on their bit patterns.
pub open spec fn settings_change(
    layer: LayerId,
    definition: LayerDefinition,
    visible: bool,
    locked: bool,
    opacity: u32,
) -> Option<ConfigureLayer> {
    let visible_changed = visible != definition.visible;
    let locked_changed = locked != definition.locked;
    let opacity_changed = !f32_same(opacity, definition.opacity);
    if visible_changed || locked_changed || opacity_changed {
        Some(
            ConfigureLayer {
                layer,
                visible: if visible_changed {
                    Some(visible)
                } else {
                    None
                },
                locked: if locked_changed {
                    Some(locked)
                } else {
                    None
                },
                opacity: if opacity_changed {
                    Some(opacity)
                } else {
                    None
                },
            },
        )
    } else {
        None
    }
}

pub fn settings_request(layer: LayerId, definition: &LayerDefinition, visible: bool, locked: bool, opacity: u32) -> (r:
    Option<ConfigureLayer>)
    ensures
        r == settings_change(layer, *definition, visible, locked, opacity),
{
    let visible_changed = visible != definition.visible;
    let locked_changed = locked != definition.locked;
    let opacity_changed = !f32_equal(opacity, definition.opacity);
    if visible_changed || locked_changed || opacity_changed {
        Some(
            ConfigureLayer {
                layer,
                visible: if visible_changed {
                    Some(visible)
                } else {
                    None
                },
                locked: if locked_changed {
                    Some(locked)
                } else {
                    None
                },
                opacity: if opacity_changed {
                    Some(opacity)
                } else {
                    None
                },
            },
        )
    } else {
        None
    }
}

} // verus!
