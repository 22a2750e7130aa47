//! Framework-neutral values crossing the workspace/atlas boundary.
use vstd::prelude::*;

verus! {

/// Calls `uuid::Uuid::new_v4` and returns the identifier as its 128-bit
/// big-endian value. The crate's source draws the bits at random and then sets
/// the version nibble to 4 and the variant bits to `10`; that is all that is
/// claimed of the result.
#[verifier::external_body]
fn random_uuid() -> (r: u128)
    ensures
        (r >> 76u128) & 0xfu128 == 4,
        (r >> 62u128) & 0x3u128 == 2,
{
    uuid::Uuid::new_v4().as_u128()
}

/// Identifier of a map feature: a UUID held as its 128-bit value.
#[derive(Debug, Clone, Copy, PartialEq, Eq, Hash, Structural)]
pub struct FeatureId(pub u128);

impl FeatureId {
    /// A fresh random (version 4) identifier.
    pub fn new() -> (r: FeatureId)
        ensures
            (r.0 >> 76u128) & 0xfu128 == 4,
            (r.0 >> 62u128) & 0x3u128 == 2,
    {
        FeatureId(random_uuid())
    }
}

/// Identifier of a layer: a UUID held as its 128-bit value.
#[derive(Debug, Clone, Copy, PartialEq, Eq, Hash, Structural)]
pub struct LayerId(pub u128);

impl LayerId {
    /// A fresh random (version 4) identifier.
    pub fn new() -> (r: LayerId)
        ensures
            (r.0 >> 76u128) & 0xfu128 == 4,
            (r.0 >> 62u128) & 0x3u128 == 2,
    {
        LayerId(random_uuid())
    }
}

/// Region number within one categorical layer; 0 means unassigned.
#[derive(Debug, Clone, Copy, PartialEq, Eq, Hash, Structural)]
pub struct RegionCode(pub u16);

impl RegionCode {
    /// The code of cells that belong to no region.
    pub fn unassigned() -> (r: RegionCode)
        ensures
            r.0 == 0,
    {
        RegionCode(0)
    }
}

/// A region of a particular layer: codes are scoped by their layer.
#[derive(Debug, Clone, Copy, PartialEq, Eq, Hash, Structural)]
pub struct RegionRef {
    pub layer: LayerId,
    pub code: RegionCode,
}

#[derive(Debug, Clone, Copy, PartialEq, Eq, Structural)]
pub enum PointerButton {
    Left,
    Right,
    Middle,
}

#[derive(Debug, Clone, Copy, PartialEq, Eq, Structural)]
pub enum MapTool {
    Navigate,
    Sculpt,
    Regions,
    Settlement,
}

#[derive(Debug, Clone, PartialEq, Eq)]
pub struct FeatureSummary {
    pub id: FeatureId,
    pub name: String,
    pub kind: String,
}

#[derive(Debug, Clone, PartialEq, Eq)]
pub struct LayerSummary {
    pub id: LayerId,
    pub name: String,
    pub visible: bool,
}

/// Pointer and window input for the map. Positions, deltas and the scale
/// factor are bit patterns of their floating-point values (`f32`, and `f64`
/// for the scale factor).
#[derive(Debug, Clone, Copy)]
pub enum MapInput {
    PointerMoved { physical_position: [u32; 2] },
    PointerDown { physical_position: [u32; 2], button: PointerButton },
    PointerUp { physical_position: [u32; 2], button: PointerButton },
    Scroll { physical_delta: [u32; 2] },
    Resize { physical_size: [u32; 2], scale_factor: u64 },
    FocusChanged(bool),
}

/// Brush size and strength, as bit patterns of `f32` values.
#[derive(Debug, Clone, Copy, PartialEq, Eq, Structural)]
pub struct BrushSettings {
    pub radius_cells: u32,
    pub strength: u32,
}

/// `8.0_f32`.
pub const DEFAULT_BRUSH_RADIUS_BITS: u32 = 0x4100_0000;

/// `35.0_f32`.
pub const DEFAULT_BRUSH_STRENGTH_BITS: u32 = 0x420c_0000;

impl Default for BrushSettings {
    fn default() -> (r: BrushSettings)
        ensures
            r.radius_cells == DEFAULT_BRUSH_RADIUS_BITS,
            r.strength == DEFAULT_BRUSH_STRENGTH_BITS,
    {
        BrushSettings { radius_cells: DEFAULT_BRUSH_RADIUS_BITS, strength: DEFAULT_BRUSH_STRENGTH_BITS }
    }
}

#[derive(Debug, Clone, Copy, PartialEq, Eq, Structural)]
pub enum MapCommand {
    SetTool(MapTool),
    SetBrush(BrushSettings),
    Undo,
    Redo,
    SaveProject,
    LoadProject,
}

/// Orbit camera distance, yaw and pitch, as bit patterns of `f32` values.
#[derive(Debug, Clone, Copy, PartialEq, Eq, Structural)]
pub struct CameraSummary {
    pub distance: u32,
    pub yaw: u32,
    pub pitch: u32,
}

impl Default for CameraSummary {
    /// Distance `22.0`, yaw `0.72`, pitch `-0.68`.
    fn default() -> (r: CameraSummary)
        ensures
            r.distance == 0x41b0_0000,
            r.yaw == 0x3f38_51ec,
            r.pitch == 0xbf2e_147b,
    {
        CameraSummary { distance: 0x41b0_0000, yaw: 0x3f38_51ec, pitch: 0xbf2e_147b }
    }
}

/// What the shell shows of the map's state.
#[derive(Debug, Clone)]
pub struct MapSnapshot {
    pub revision: u64,
    pub selected_feature: Option<FeatureSummary>,
    pub selected_layer: Option<LayerSummary>,
    pub available_layers: Vec<LayerSummary>,
    pub active_tool: MapTool,
    pub brush: BrushSettings,
    pub camera: CameraSummary,
    pub project_dirty: bool,
    pub undo_available: bool,
    pub redo_available: bool,
    pub status: String,
}

/// The snapshot the shell holds before the map has reported anything: revision
/// zero, nothing selected or listed, sculpting with the default brush, the
/// opening camera, a clean project without history, and the ready notice.
pub open spec fn initial_snapshot(r: MapSnapshot) -> bool {
    &&& r.revision == 0
    &&& r.selected_feature is None
    &&& r.selected_layer is None
    &&& r.available_layers@.len() == 0
    &&& r.active_tool == MapTool::Sculpt
    &&& r.brush == (BrushSettings { radius_cells: DEFAULT_BRUSH_RADIUS_BITS, strength: DEFAULT_BRUSH_STRENGTH_BITS })
    &&& r.camera == (CameraSummary { distance: 0x41b0_0000, yaw: 0x3f38_51ec, pitch: 0xbf2e_147b })
    &&& !r.project_dirty
    &&& !r.undo_available
    &&& !r.redo_available
    &&& r.status@ == "Atlas ready"@
}

impl Default for MapSnapshot {
    fn default() -> (r: MapSnapshot)
        ensures
            initial_snapshot(r),
    {
        proof {
            reveal_strlit("Atlas ready");
        }
        MapSnapshot {
            revision: 0,
            selected_feature: None,
            selected_layer: None,
            available_layers: Vec::new(),
            active_tool: MapTool::Sculpt,
            brush: BrushSettings::default(),
            camera: CameraSummary::default(),
            project_dirty: false,
            undo_available: false,
            redo_available: false,
            status: String::from_str("Atlas ready"),
        }
    }
}

/// What the map reports back to the shell.
#[derive(Debug, Clone)]
pub enum MapEvent {
    SelectionChanged(Option<FeatureId>),
    CameraChanged(CameraSummary),
    CommandAccepted { revision: u64 },
    CommandRejected { error: String },
    ProjectChanged { dirty: bool },
    ProjectSaved { path: String },
    ProjectLoaded { path: String },
    ProjectIoFailed { operation: String, error: String },
}

/// A map event as plain values.
pub enum MapEventView {
    SelectionChanged(Option<FeatureId>),
    CameraChanged(CameraSummary),
    CommandAccepted { revision: u64 },
    CommandRejected { error: Seq<char> },
    ProjectChanged { dirty: bool },
    ProjectSaved { path: Seq<char> },
    ProjectLoaded { path: Seq<char> },
    ProjectIoFailed { operation: Seq<char>, error: Seq<char> },
}

impl View for MapEvent {
    type V = MapEventView;

    open spec fn view(&self) -> MapEventView {
        match self {
            MapEvent::SelectionChanged(f) => MapEventView::SelectionChanged(*f),
            MapEvent::CameraChanged(c) => MapEventView::CameraChanged(*c),
            MapEvent::CommandAccepted { revision } => MapEventView::CommandAccepted { revision: *revision },
            MapEvent::CommandRejected { error } => MapEventView::CommandRejected { error: error@ },
            MapEvent::ProjectChanged { dirty } => MapEventView::ProjectChanged { dirty: *dirty },
            MapEvent::ProjectSaved { path } => MapEventView::ProjectSaved { path: path@ },
            MapEvent::ProjectLoaded { path } => MapEventView::ProjectLoaded { path: path@ },
            MapEvent::ProjectIoFailed { operation, error } => MapEventView::ProjectIoFailed {
                operation: operation@,
                error: error@,
            },
        }
    }
}

/// A layer summary as plain values.
pub struct LayerSummaryView {
    pub id: LayerId,
    pub name: Seq<char>,
    pub visible: bool,
}

impl View for LayerSummary {
    type V = LayerSummaryView;

    open spec fn view(&self) -> LayerSummaryView {
        LayerSummaryView { id: self.id, name: self.name@, visible: self.visible }
    }
}

/// A feature summary as plain values.
pub struct FeatureSummaryView {
    pub id: FeatureId,
    pub name: Seq<char>,
    pub kind: Seq<char>,
}

impl View for FeatureSummary {
    type V = FeatureSummaryView;

    open spec fn view(&self) -> FeatureSummaryView {
        FeatureSummaryView { id: self.id, name: self.name@, kind: self.kind@ }
    }
}

} // verus!
