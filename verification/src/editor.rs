//! Transient editor intent: the chosen tool, brush, selections and drafts.
use vstd::prelude::*;
use crate::brush::BrushFalloff;
use crate::coordinates::TileId;
use crate::features::SettlementKind;
use crate::protocol::{DEFAULT_BRUSH_RADIUS_BITS, DEFAULT_BRUSH_STRENGTH_BITS, FeatureId, LayerId, RegionCode};
use crate::terrain::SculptMode;

verus! {

#[derive(Debug, Clone, Copy, PartialEq, Eq, Structural)]
pub enum EditorTool {
    Navigate,
    Sculpt,
    Regions,
    City,
}

impl Default for EditorTool {
    fn default() -> (r: EditorTool)
        ensures
            r == EditorTool::Sculpt,
    {
        EditorTool::Sculpt
    }
}

/// Settings of the terrain brush; radius (in cells) and strength are bit
/// patterns of `f32` values.
#[derive(Debug, Clone, Copy, PartialEq, Eq, Structural)]
pub struct TerrainBrushSettings {
    pub mode: SculptMode,
    pub falloff: BrushFalloff,
    pub radius_cells: u32,
    pub strength: u32,
}

impl Default for TerrainBrushSettings {
    /// Raise with a smooth falloff, radius `8.0`, strength `35.0`.
    fn default() -> (r: TerrainBrushSettings)
        ensures
            r == (TerrainBrushSettings {
                mode: SculptMode::Raise,
                falloff: BrushFalloff::Smooth,
                radius_cells: DEFAULT_BRUSH_RADIUS_BITS,
                strength: DEFAULT_BRUSH_STRENGTH_BITS,
            }),
    {
        TerrainBrushSettings {
            mode: SculptMode::Raise,
            falloff: BrushFalloff::Smooth,
            radius_cells: DEFAULT_BRUSH_RADIUS_BITS,
            strength: DEFAULT_BRUSH_STRENGTH_BITS,
        }
    }
}

#[derive(Debug, Clone, Copy, PartialEq, Eq, Structural)]
pub struct LayerSelection {
    pub layer: Option<LayerId>,
    pub region: Option<RegionCode>,
}

impl Default for LayerSelection {
    fn default() -> (r: LayerSelection)
        ensures
            r.layer is None,
            r.region is None,
    {
        LayerSelection { layer: None, region: None }
    }
}

/// Name and kind the next placed settlement gets.
#[derive(Debug, Clone)]
pub struct SettlementDraft {
    pub name: String,
    pub kind: SettlementKind,
}

impl Default for SettlementDraft {
    fn default() -> (r: SettlementDraft)
        ensures
            r.name@ == "New city"@,
            r.kind == SettlementKind::City,
    {
        proof {
            reveal_strlit("New city");
        }
        SettlementDraft { name: String::from_str("New city"), kind: SettlementKind::City }
    }
}

#[derive(Debug, Clone, Copy, PartialEq, Eq, Structural)]
pub struct SelectedFeature(pub Option<FeatureId>);

impl Default for SelectedFeature {
    fn default() -> (r: SelectedFeature)
        ensures
            r.0 is None,
    {
        SelectedFeature(None)
    }
}

#[derive(Debug, Clone, Copy, PartialEq, Eq, Structural)]
pub struct ActiveEditTile(pub TileId);

impl Default for ActiveEditTile {
    fn default() -> (r: ActiveEditTile)
        ensures
            r.0 == (TileId { face: crate::coordinates::CubeFace::PositiveY, level: 0, x: 0, y: 0 }),
    {
        ActiveEditTile(TileId::root())
    }
}

/// Names the next created layer and region get.
#[derive(Debug)]
pub struct EditorDraftNames {
    pub layer: String,
    pub region: String,
}

impl Default for EditorDraftNames {
    fn default() -> (r: EditorDraftNames)
        ensures
            r.layer@ == "New layer"@,
            r.region@ == "New region"@,
    {
        proof {
            reveal_strlit("New layer");
            reveal_strlit("New region");
        }
        EditorDraftNames { layer: String::from_str("New layer"), region: String::from_str("New region") }
    }
}

#[derive(Debug)]
pub struct StatusLine(pub String);

impl Default for StatusLine {
    fn default() -> (r: StatusLine)
        ensures
            r.0@ == "Ready"@,
    {
        proof {
            reveal_strlit("Ready");
        }
        StatusLine(String::from_str("Ready"))
    }
}

/// Owns transient editor intent only; it installs no UI, input, domain data,
/// rendering or simulation.
pub struct EditorStatePlugin;

} // verus!
