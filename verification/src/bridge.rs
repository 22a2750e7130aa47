//! Decisions of the map host that sits between the shell and the atlas:
//! which commands are accepted, what is reported back, and what the shell is
//! shown. Rendering, picking and the frame loop stay with the host.
use vstd::prelude::*;
use crate::editor::{EditorTool, LayerSelection, SelectedFeature, StatusLine, TerrainBrushSettings};
use crate::features::{FeatureKind, FeatureStore};
use crate::history::HistoryOutcome;
use crate::layers::{LayerDefinition, LayerRegistry, definition_of};
use crate::protocol::{
    RegionCode,
    BrushSettings, CameraSummary, FeatureId, FeatureSummary, FeatureSummaryView, LayerId, LayerSummary,
    LayerSummaryView, MapCommand, MapEvent, MapEventView, MapInput, MapSnapshot, MapTool, PointerButton,
};

verus! {

pub open spec fn editor_tool_of(tool: MapTool) -> EditorTool {
    match tool {
        MapTool::Navigate => EditorTool::Navigate,
        MapTool::Sculpt => EditorTool::Sculpt,
        MapTool::Regions => EditorTool::Regions,
        MapTool::Settlement => EditorTool::City,
    }
}

pub open spec fn map_tool_of(tool: EditorTool) -> MapTool {
    match tool {
        EditorTool::Navigate => MapTool::Navigate,
        EditorTool::Sculpt => MapTool::Sculpt,
        EditorTool::Regions => MapTool::Regions,
        EditorTool::City => MapTool::Settlement,
    }
}

/// The editor tool a shell tool selects.
pub fn editor_tool_for(tool: MapTool) -> (r: EditorTool)
    ensures
        r == editor_tool_of(tool),
{
    match tool {
        MapTool::Navigate => EditorTool::Navigate,
        MapTool::Sculpt => EditorTool::Sculpt,
        MapTool::Regions => EditorTool::Regions,
        MapTool::Settlement => EditorTool::City,
    }
}

/// The shell tool an editor tool is shown as.
pub fn map_tool_for(tool: EditorTool) -> (r: MapTool)
    ensures
        r == map_tool_of(tool),
{
    match tool {
        EditorTool::Navigate => MapTool::Navigate,
        EditorTool::Sculpt => MapTool::Sculpt,
        EditorTool::Regions => MapTool::Regions,
        EditorTool::City => MapTool::Settlement,
    }
}

/// The shell and the editor name the same tools: choosing a tool in the shell
/// and reading it back gives that tool, and the other way round.
pub proof fn lemma_tools_round_trip(shell: MapTool, editor: EditorTool)
    ensures
        map_tool_of(editor_tool_of(shell)) == shell,
        editor_tool_of(map_tool_of(editor)) == editor,
{
}

/// Whether the bit pattern is that of a finite `f32` above zero.
pub open spec fn positive_finite(bits: u32) -> bool {
    0 < bits < 0x7f80_0000
}

pub open spec fn brush_is_valid(brush: BrushSettings) -> bool {
    positive_finite(brush.radius_cells) && positive_finite(brush.strength)
}

/// Brush radius and strength must both be finite and positive.
pub fn valid_brush(brush: BrushSettings) -> (r: bool)
    ensures
        r == brush_is_valid(brush),
{
    0 < brush.radius_cells && brush.radius_cells < 0x7f80_0000 && 0 < brush.strength && brush.strength
        < 0x7f80_0000
}

pub open spec fn kind_name(kind: FeatureKind) -> Seq<char> {
    match kind {
        FeatureKind::Settlement { .. } => "Settlement"@,
        FeatureKind::River { .. } => "River"@,
        FeatureKind::Road => "Road"@,
        FeatureKind::SeaRoute => "Sea route"@,
        FeatureKind::Border => "Border"@,
        FeatureKind::Landmark => "Landmark"@,
    }
}

/// Display name of a feature kind.
pub fn feature_kind_name(kind: &FeatureKind) -> (r: &'static str)
    ensures
        r@ == kind_name(*kind),
{
    match kind {
        FeatureKind::Settlement { .. } => "Settlement",
        FeatureKind::River { .. } => "River",
        FeatureKind::Road => "Road",
        FeatureKind::SeaRoute => "Sea route",
        FeatureKind::Border => "Border",
        FeatureKind::Landmark => "Landmark",
    }
}

/// Work a shell command hands on to the atlas.
#[derive(Debug, Clone, Copy, PartialEq, Eq, Structural)]
pub enum AtlasRequest {
    Undo,
    Redo,
    SaveProject,
    LoadProject,
}

/// Message of a refused brush.
pub open spec fn brush_error() -> Seq<char> {
    "Brush radius and strength must be finite and positive"@
}

/// Queued shell traffic, the events to report, and the revision that every
/// accepted command moves on (wrapping).
pub struct BridgeState {
    pub inputs: Vec<MapInput>,
    pub commands: Vec<MapCommand>,
    pub events: Vec<MapEvent>,
    pub revision: u64,
}

pub open spec fn next_revision(revision: u64) -> u64 {
    if revision == u64::MAX {
        0
    } else {
        (revision + 1) as u64
    }
}

/// The request a command hands on, if any.
pub open spec fn request_of(command: MapCommand) -> Option<AtlasRequest> {
    match command {
        MapCommand::Undo => Some(AtlasRequest::Undo),
        MapCommand::Redo => Some(AtlasRequest::Redo),
        MapCommand::SaveProject => Some(AtlasRequest::SaveProject),
        MapCommand::LoadProject => Some(AtlasRequest::LoadProject),
        _ => None,
    }
}

/// Whether a command is accepted: every command but an invalid brush.
pub open spec fn accepted(command: MapCommand) -> bool {
    match command {
        MapCommand::SetBrush(b) => brush_is_valid(b),
        _ => true,
    }
}

impl BridgeState {
    pub fn new() -> (r: BridgeState)
        ensures
            r.inputs@.len() == 0,
            r.commands@.len() == 0,
            r.events@.len() == 0,
            r.revision == 0,
    {
        BridgeState { inputs: Vec::new(), commands: Vec::new(), events: Vec::new(), revision: 0 }
    }

    pub fn send_input(&mut self, input: MapInput)
        ensures
            final(self).inputs@ == old(self).inputs@.push(input),
            final(self).commands == old(self).commands,
            final(self).events == old(self).events,
            final(self).revision == old(self).revision,
    {
        self.inputs.push(input);
    }

    pub fn send_command(&mut self, command: MapCommand)
        ensures
            final(self).commands@ == old(self).commands@.push(command),
            final(self).inputs == old(self).inputs,
            final(self).events == old(self).events,
            final(self).revision == old(self).revision,
    {
        self.commands.push(command);
    }

    /// Hands over the events reported so far.
    pub fn take_events(&mut self) -> (r: Vec<MapEvent>)
        ensures
            r@ == old(self).events@,
            final(self).events@.len() == 0,
            final(self).inputs == old(self).inputs,
            final(self).commands == old(self).commands,
            final(self).revision == old(self).revision,
    {
        let mut taken: Vec<MapEvent> = Vec::new();
        std::mem::swap(&mut taken, &mut self.events);
        taken
    }

    /// Moves the revision on and reports it accepted.
    pub fn accept(&mut self)
        ensures
            final(self).revision == next_revision(old(self).revision),
            final(self).events@.len() == old(self).events@.len() + 1,
            final(self).events@.drop_last() == old(self).events@,
            final(self).events@.last()@ == (MapEventView::CommandAccepted { revision: final(self).revision }),
            final(self).inputs == old(self).inputs,
            final(self).commands == old(self).commands,
    {
        self.revision = self.revision.wrapping_add(1);
        let revision = self.revision;
        self.events.push(MapEvent::CommandAccepted { revision });
        proof {
            assert(self.events@.drop_last() =~= old(self).events@);
        }
    }

    /// Reports a refusal.
    pub fn reject(&mut self, error: String)
        ensures
            final(self).revision == old(self).revision,
            final(self).events@.len() == old(self).events@.len() + 1,
            final(self).events@.drop_last() == old(self).events@,
            final(self).events@.last()@ == (MapEventView::CommandRejected { error: error@ }),
            final(self).inputs == old(self).inputs,
            final(self).commands == old(self).commands,
    {
        self.events.push(MapEvent::CommandRejected { error });
        proof {
            assert(self.events@.drop_last() =~= old(self).events@);
        }
    }

    /// Carries out one shell command. A tool or a valid brush is taken over at
    /// once; undo, redo, save and load are handed on as requests. An invalid
    /// brush is refused, with the reason on the status line.
    pub fn process_command(
        &mut self,
        tool: &mut EditorTool,
        brush: &mut TerrainBrushSettings,
        status: &mut StatusLine,
        command: MapCommand,
    ) -> (r: Option<AtlasRequest>)
        ensures
            r == request_of(command),
            *final(tool) == (match command {
                MapCommand::SetTool(next) => editor_tool_of(next),
                _ => *old(tool),
            }),
            *final(brush) == (match command {
                MapCommand::SetBrush(next) => if brush_is_valid(next) {
                    TerrainBrushSettings {
                        radius_cells: next.radius_cells,
                        strength: next.strength,
                        ..*old(brush)
                    }
                } else {
                    *old(brush)
                },
                _ => *old(brush),
            }),
            final(status).0@ == (if accepted(command) {
                old(status).0@
            } else {
                brush_error()
            }),
            final(self).events@.len() == old(self).events@.len() + 1,
            final(self).events@.drop_last() == old(self).events@,
            accepted(command) ==> final(self).revision == next_revision(old(self).revision)
                && final(self).events@.last()@ == (MapEventView::CommandAccepted { revision: final(self).revision }),
            !accepted(command) ==> final(self).revision == old(self).revision
                && final(self).events@.last()@ == (MapEventView::CommandRejected { error: brush_error() }),
            final(self).inputs == old(self).inputs,
            final(self).commands == old(self).commands,
    {
        let request = match command {
            MapCommand::SetTool(next) => {
                *tool = editor_tool_for(next);
                None
            },
            MapCommand::SetBrush(next) => {
                if !valid_brush(next) {
                    proof {
                        reveal_strlit("Brush radius and strength must be finite and positive");
                    }
                    status.0 = String::from_str("Brush radius and strength must be finite and positive");
                    self.reject(String::from_str("Brush radius and strength must be finite and positive"));
                    return None;
                }
                brush.radius_cells = next.radius_cells;
                brush.strength = next.strength;
                None
            },
            MapCommand::Undo => Some(AtlasRequest::Undo),
            MapCommand::Redo => Some(AtlasRequest::Redo),
            MapCommand::SaveProject => Some(AtlasRequest::SaveProject),
            MapCommand::LoadProject => Some(AtlasRequest::LoadProject),
        };
        self.accept();
        request
    }

    /// Reports a finished history step: a step taken moves the revision on,
    /// anything else is a refusal with its reason.
    pub fn note_history(&mut self, outcome: &HistoryOutcome)
        ensures
            final(self).events@.len() == old(self).events@.len() + 1,
            final(self).events@.drop_last() == old(self).events@,
            match outcome {
                HistoryOutcome::Undid | HistoryOutcome::Redid => final(self).revision == next_revision(
                    old(self).revision,
                ) && final(self).events@.last()@ == (MapEventView::CommandAccepted {
                    revision: final(self).revision,
                }),
                HistoryOutcome::NothingToUndo => final(self).revision == old(self).revision
                    && final(self).events@.last()@ == (MapEventView::CommandRejected {
                    error: "Nothing to undo"@,
                }),
                HistoryOutcome::NothingToRedo => final(self).revision == old(self).revision
                    && final(self).events@.last()@ == (MapEventView::CommandRejected {
                    error: "Nothing to redo"@,
                }),
                HistoryOutcome::Failed(e) => final(self).revision == old(self).revision
                    && final(self).events@.last()@ == (MapEventView::CommandRejected { error: e@ }),
            },
            final(self).inputs == old(self).inputs,
            final(self).commands == old(self).commands,
    {
        match outcome {
            HistoryOutcome::Undid | HistoryOutcome::Redid => self.accept(),
            HistoryOutcome::NothingToUndo => {
                proof {
                    reveal_strlit("Nothing to undo");
                }
                self.reject(String::from_str("Nothing to undo"));
            },
            HistoryOutcome::NothingToRedo => {
                proof {
                    reveal_strlit("Nothing to redo");
                }
                self.reject(String::from_str("Nothing to redo"));
            },
            HistoryOutcome::Failed(error) => self.reject(error.clone()),
        }
    }

    /// The feature becomes the selection: a new one, or one picked on the map.
    pub fn select_feature(&mut self, selected: &mut SelectedFeature, feature: FeatureId)
        ensures
            final(selected).0 == Some(feature),
            final(self).events@ == old(self).events@.push(MapEvent::SelectionChanged(Some(feature))),
            final(self).revision == old(self).revision,
            final(self).inputs == old(self).inputs,
            final(self).commands == old(self).commands,
    {
        selected.0 = Some(feature);
        self.events.push(MapEvent::SelectionChanged(Some(feature)));
    }

    /// A refused feature edit is reported with its reason.
    pub fn note_feature_failed(&mut self, error: String)
        ensures
            final(self).events@.len() == old(self).events@.len() + 1,
            final(self).events@.drop_last() == old(self).events@,
            final(self).events@.last()@ == (MapEventView::CommandRejected { error: error@ }),
            final(self).revision == old(self).revision,
            final(self).inputs == old(self).inputs,
            final(self).commands == old(self).commands,
    {
        self.reject(error);
    }

    /// Changed heights count as an accepted command.
    pub fn note_terrain_changed(&mut self)
        ensures
            final(self).revision == next_revision(old(self).revision),
            final(self).events@.len() == old(self).events@.len() + 1,
            final(self).events@.drop_last() == old(self).events@,
            final(self).events@.last()@ == (MapEventView::CommandAccepted { revision: final(self).revision }),
            final(self).inputs == old(self).inputs,
            final(self).commands == old(self).commands,
    {
        self.accept();
    }

    pub fn note_project_saved(&mut self, path: String)
        ensures
            final(self).events@.len() == old(self).events@.len() + 1,
            final(self).events@.drop_last() == old(self).events@,
            final(self).events@.last()@ == (MapEventView::ProjectSaved { path: path@ }),
            final(self).revision == old(self).revision,
            final(self).inputs == old(self).inputs,
            final(self).commands == old(self).commands,
    {
        self.events.push(MapEvent::ProjectSaved { path });
        proof {
            assert(self.events@.drop_last() =~= old(self).events@);
        }
    }

    pub fn note_project_loaded(&mut self, path: String)
        ensures
            final(self).events@.len() == old(self).events@.len() + 1,
            final(self).events@.drop_last() == old(self).events@,
            final(self).events@.last()@ == (MapEventView::ProjectLoaded { path: path@ }),
            final(self).revision == old(self).revision,
            final(self).inputs == old(self).inputs,
            final(self).commands == old(self).commands,
    {
        self.events.push(MapEvent::ProjectLoaded { path });
        proof {
            assert(self.events@.drop_last() =~= old(self).events@);
        }
    }

    pub fn note_project_failed(&mut self, operation: String, error: String)
        ensures
            final(self).events@.len() == old(self).events@.len() + 1,
            final(self).events@.drop_last() == old(self).events@,
            final(self).events@.last()@ == (MapEventView::ProjectIoFailed { operation: operation@, error: error@ }),
            final(self).revision == old(self).revision,
            final(self).inputs == old(self).inputs,
            final(self).commands == old(self).commands,
    {
        self.events.push(MapEvent::ProjectIoFailed { operation, error });
        proof {
            assert(self.events@.drop_last() =~= old(self).events@);
        }
    }
}

/// What command processing changes, as plain values.
pub struct CommandState {
    pub tool: EditorTool,
    pub brush: TerrainBrushSettings,
    pub status: Seq<char>,
    pub revision: u64,
    pub events: Seq<MapEventView>,
    pub requests: Seq<AtlasRequest>,
}

/// The state after one command.
pub open spec fn after_command(st: CommandState, command: MapCommand) -> CommandState {
    let tool = match command {
        MapCommand::SetTool(next) => editor_tool_of(next),
        _ => st.tool,
    };
    let brush = match command {
        MapCommand::SetBrush(next) => if brush_is_valid(next) {
            TerrainBrushSettings { radius_cells: next.radius_cells, strength: next.strength, ..st.brush }
        } else {
            st.brush
        },
        _ => st.brush,
    };
    let requests = match request_of(command) {
        Some(q) => st.requests.push(q),
        None => st.requests,
    };
    if accepted(command) {
        CommandState {
            tool,
            brush,
            status: st.status,
            revision: next_revision(st.revision),
            events: st.events.push(MapEventView::CommandAccepted { revision: next_revision(st.revision) }),
            requests,
        }
    } else {
        CommandState {
            tool,
            brush,
            status: brush_error(),
            revision: st.revision,
            events: st.events.push(MapEventView::CommandRejected { error: brush_error() }),
            requests,
        }
    }
}

/// The state after the commands, in order.
pub open spec fn after_commands(st: CommandState, commands: Seq<MapCommand>) -> CommandState
    decreases commands.len(),
{
    if commands.len() == 0 {
        st
    } else {
        after_command(after_commands(st, commands.drop_last()), commands.last())
    }
}

/// Every processed command is answered by exactly one event, and the
/// requests handed on are those of the undo, redo, save and load commands.
pub proof fn lemma_one_event_per_command(st: CommandState, commands: Seq<MapCommand>)
    ensures
        after_commands(st, commands).events.len() == st.events.len() + commands.len(),
        after_commands(st, commands).requests.len() <= st.requests.len() + commands.len(),
    decreases commands.len(),
{
    if commands.len() > 0 {
        lemma_one_event_per_command(st, commands.drop_last());
    }
}

pub open spec fn event_views(events: Seq<MapEvent>) -> Seq<MapEventView> {
    events.map_values(|e: MapEvent| e@)
}

impl BridgeState {
    /// Carries out every queued command in order and returns the requests
    /// they hand on, in order.
    pub fn process_commands(
        &mut self,
        tool: &mut EditorTool,
        brush: &mut TerrainBrushSettings,
        status: &mut StatusLine,
    ) -> (requests: Vec<AtlasRequest>)
        ensures
            final(self).commands@.len() == 0,
            final(self).inputs == old(self).inputs,
            after_commands(
                CommandState {
                    tool: *old(tool),
                    brush: *old(brush),
                    status: old(status).0@,
                    revision: old(self).revision,
                    events: event_views(old(self).events@),
                    requests: Seq::empty(),
                },
                old(self).commands@,
            ) == (CommandState {
                tool: *final(tool),
                brush: *final(brush),
                status: final(status).0@,
                revision: final(self).revision,
                events: event_views(final(self).events@),
                requests: requests@,
            }),
    {
        let mut commands: Vec<MapCommand> = Vec::new();
        std::mem::swap(&mut commands, &mut self.commands);
        let ghost start = CommandState {
            tool: *tool,
            brush: *brush,
            status: status.0@,
            revision: self.revision,
            events: event_views(self.events@),
            requests: Seq::empty(),
        };
        let mut requests: Vec<AtlasRequest> = Vec::new();
        let mut k: usize = 0;
        while k < commands.len()
            invariant
                k <= commands@.len(),
                commands@ == old(self).commands@,
                self.commands@.len() == 0,
                self.inputs == old(self).inputs,
                start == (CommandState {
                    tool: *old(tool),
                    brush: *old(brush),
                    status: old(status).0@,
                    revision: old(self).revision,
                    events: event_views(old(self).events@),
                    requests: Seq::empty(),
                }),
                after_commands(start, commands@.take(k as int)) == (CommandState {
                    tool: *tool,
                    brush: *brush,
                    status: status.0@,
                    revision: self.revision,
                    events: event_views(self.events@),
                    requests: requests@,
                }),
            decreases commands.len() - k,
        {
            let command = commands[k];
            let ghost before_events = self.events@;
            let request = self.process_command(tool, brush, status, command);
            if let Some(q) = request {
                requests.push(q);
            }
            proof {
                assert(commands@.take(k + 1).drop_last() =~= commands@.take(k as int));
                assert(commands@.take(k + 1).last() == command);
                assert(event_views(self.events@) =~= event_views(before_events).push(self.events@.last()@)) by {
                    assert(self.events@ =~= before_events.push(self.events@.last()));
                }
            }
            k = k + 1;
        }
        proof {
            assert(commands@.take(commands@.len() as int) =~= commands@);
        }
        requests
    }
}

/// Which pointer buttons are held, whether the left one went down this
/// frame, and whether the map has focus.
#[derive(Debug, Clone, Copy, PartialEq, Eq, Structural)]
pub struct PointerButtons {
    pub left_down: bool,
    pub right_down: bool,
    pub left_just_pressed: bool,
    pub focused: bool,
}

/// Buttons after one input; inputs that carry no button or focus change
/// leave them alone.
pub open spec fn buttons_after(b: PointerButtons, input: MapInput) -> PointerButtons {
    match input {
        MapInput::PointerDown { button, .. } => match button {
            PointerButton::Left => PointerButtons { left_just_pressed: !b.left_down, left_down: true, ..b },
            PointerButton::Right => PointerButtons { right_down: true, ..b },
            PointerButton::Middle => b,
        },
        MapInput::PointerUp { button, .. } => match button {
            PointerButton::Left => PointerButtons { left_down: false, ..b },
            PointerButton::Right => PointerButtons { right_down: false, ..b },
            PointerButton::Middle => b,
        },
        MapInput::FocusChanged(focused) => if focused {
            PointerButtons { focused: true, ..b }
        } else {
            PointerButtons { focused: false, left_down: false, right_down: false, ..b }
        },
        _ => b,
    }
}

impl PointerButtons {
    /// Nothing held, and the map focused.
    pub fn new() -> (r: PointerButtons)
        ensures
            r == (PointerButtons { left_down: false, right_down: false, left_just_pressed: false, focused: true }),
    {
        PointerButtons { left_down: false, right_down: false, left_just_pressed: false, focused: true }
    }

    pub fn observe(&mut self, input: &MapInput)
        ensures
            *final(self) == buttons_after(*old(self), *input),
    {
        match input {
            MapInput::PointerDown { button, .. } => match button {
                PointerButton::Left => {
                    self.left_just_pressed = !self.left_down;
                    self.left_down = true;
                },
                PointerButton::Right => self.right_down = true,
                PointerButton::Middle => {},
            },
            MapInput::PointerUp { button, .. } => match button {
                PointerButton::Left => self.left_down = false,
                PointerButton::Right => self.right_down = false,
                PointerButton::Middle => {},
            },
            MapInput::FocusChanged(focused) => {
                self.focused = *focused;
                if !*focused {
                    self.left_down = false;
                    self.right_down = false;
                }
            },
            _ => {},
        }
    }

    /// End of a frame: a press is no longer new.
    pub fn finish_frame(&mut self)
        ensures
            *final(self) == (PointerButtons { left_just_pressed: false, ..*old(self) }),
    {
        self.left_just_pressed = false;
    }
}

pub open spec fn layer_summary_of(d: LayerDefinition) -> LayerSummaryView {
    LayerSummaryView { id: d.id, name: d.name@, visible: d.visible }
}

/// Summaries of the listed layers that have a definition, in list order.
pub open spec fn listed_layers(ordering: Seq<LayerId>, defs: Seq<LayerDefinition>) -> Seq<LayerSummaryView>
    decreases ordering.len(),
{
    if ordering.len() == 0 {
        Seq::empty()
    } else {
        let rest = listed_layers(ordering.drop_last(), defs);
        match definition_of(defs, ordering.last()) {
            Some(d) => rest.push(layer_summary_of(d)),
            None => rest,
        }
    }
}

pub open spec fn summary_views(s: Seq<LayerSummary>) -> Seq<LayerSummaryView> {
    s.map_values(|l: LayerSummary| l@)
}

pub open spec fn selected_layer_of(selection: LayerSelection, layers: LayerRegistry) -> Option<LayerSummaryView> {
    match selection.layer {
        Some(id) => match layers.get(id) {
            Some(d) => Some(layer_summary_of(d)),
            None => None,
        },
        None => None,
    }
}

pub open spec fn selected_feature_of(selected: SelectedFeature, features: FeatureStore) -> Option<FeatureSummaryView> {
    match selected.0 {
        Some(id) => match features.get(id) {
            Some(f) => Some(FeatureSummaryView { id: f.id, name: f.name@, kind: kind_name(f.kind) }),
            None => None,
        },
        None => None,
    }
}

pub open spec fn layer_view(o: Option<LayerSummary>) -> Option<LayerSummaryView> {
    match o {
        Some(l) => Some(l@),
        None => None,
    }
}

pub open spec fn feature_view(o: Option<FeatureSummary>) -> Option<FeatureSummaryView> {
    match o {
        Some(f) => Some(f@),
        None => None,
    }
}

fn summarize(d: &LayerDefinition) -> (r: LayerSummary)
    ensures
        r@ == layer_summary_of(*d),
{
    LayerSummary { id: d.id, name: d.name.clone(), visible: d.visible }
}

/// What the shell is shown of the map.
pub fn refresh_snapshot(
    revision: u64,
    tool: EditorTool,
    brush: &TerrainBrushSettings,
    selection: &LayerSelection,
    selected: &SelectedFeature,
    features: &FeatureStore,
    layers: &LayerRegistry,
    undo_len: usize,
    redo_len: usize,
    project_dirty: bool,
    status: &StatusLine,
    camera: CameraSummary,
) -> (r: MapSnapshot)
    requires
        features.wf(),
        layers.wf(),
    ensures
        r.revision == revision,
        feature_view(r.selected_feature) == selected_feature_of(*selected, *features),
        layer_view(r.selected_layer) == selected_layer_of(*selection, *layers),
        summary_views(r.available_layers@) == listed_layers(layers.ordering@, layers.definitions@),
        r.active_tool == map_tool_of(tool),
        r.brush == (BrushSettings { radius_cells: brush.radius_cells, strength: brush.strength }),
        r.camera == camera,
        r.project_dirty == project_dirty,
        r.undo_available == (undo_len > 0),
        r.redo_available == (redo_len > 0),
        r.status@ == status.0@,
{
    let mut available: Vec<LayerSummary> = Vec::new();
    let mut k: usize = 0;
    while k < layers.ordering.len()
        invariant
            k <= layers.ordering@.len(),
            layers.wf(),
            summary_views(available@) == listed_layers(layers.ordering@.take(k as int), layers.definitions@),
        decreases layers.ordering.len() - k,
    {
        proof {
            assert(layers.ordering@.take(k + 1).drop_last() =~= layers.ordering@.take(k as int));
            assert(layers.ordering@.take(k + 1).last() == layers.ordering@[k as int]);
        }
        let ghost before = available@;
        match layers.position(layers.ordering[k]) {
            Some(i) => {
                available.push(summarize(&layers.definitions[i]));
                proof {
                    assert(summary_views(available@) =~= summary_views(before).push(available@.last()@)) by {
                        assert(available@ =~= before.push(available@.last()));
                    }
                }
            },
            None => {},
        }
        k = k + 1;
    }
    proof {
        assert(layers.ordering@.take(layers.ordering@.len() as int) =~= layers.ordering@);
    }
    let selected_layer = match selection.layer {
        Some(id) => match layers.position(id) {
            Some(i) => Some(summarize(&layers.definitions[i])),
            None => None,
        },
        None => None,
    };
    let selected_feature = match selected.0 {
        Some(id) => match features.find(id) {
            Some(f) => {
                let kind = feature_kind_name(&f.kind);
                Some(FeatureSummary { id: f.id, name: f.name.clone(), kind: String::from_str(kind) })
            },
            None => None,
        },
        None => None,
    };
    MapSnapshot {
        revision,
        selected_feature,
        selected_layer,
        available_layers: available,
        active_tool: map_tool_for(tool),
        brush: BrushSettings { radius_cells: brush.radius_cells, strength: brush.strength },
        camera,
        project_dirty,
        undo_available: undo_len > 0,
        redo_available: redo_len > 0,
        status: status.0.clone(),
    }
}

/// What a pointer over the map does this frame, once the surface under it is
/// known.
#[derive(Debug, Clone, Copy, PartialEq, Eq, Structural)]
pub enum MapAction {
    /// Select the feature near a fresh click.
    Select(FeatureId),
    /// The button is up: the stroke is over.
    EndStroke,
    /// Nothing to do this frame.
    Skip,
    /// Stamp the terrain brush.
    Sculpt,
    /// Paint the selected region.
    Paint { layer: LayerId, region: RegionCode },
    /// Painting needs a layer and a region selected first.
    NeedSelection,
    /// Found a settlement from the draft.
    PlaceSettlement,
}

pub open spec fn action_for(
    tool: EditorTool,
    left_just_pressed: bool,
    nearest: Option<FeatureId>,
    left_down: bool,
    too_close: bool,
    selection: LayerSelection,
) -> MapAction {
    if left_just_pressed && nearest is Some {
        MapAction::Select(nearest.unwrap())
    } else if !left_down {
        MapAction::EndStroke
    } else if too_close {
        MapAction::Skip
    } else {
        match tool {
            EditorTool::Navigate => MapAction::Skip,
            EditorTool::Sculpt => MapAction::Sculpt,
            EditorTool::Regions => match (selection.layer, selection.region) {
                (Some(layer), Some(region)) => MapAction::Paint { layer, region },
                _ => MapAction::NeedSelection,
            },
            EditorTool::City => if left_just_pressed {
                MapAction::PlaceSettlement
            } else {
                MapAction::Skip
            },
        }
    }
}

/// Decides what the pointer does. `nearest` is the point feature close to a
/// fresh click, if any; `too_close` says the pointer has not moved a brush
/// spacing since the last stamp.
pub fn decide_interaction(
    tool: EditorTool,
    left_just_pressed: bool,
    nearest: Option<FeatureId>,
    left_down: bool,
    too_close: bool,
    selection: LayerSelection,
) -> (r: MapAction)
    ensures
        r == action_for(tool, left_just_pressed, nearest, left_down, too_close, selection),
{
    if left_just_pressed {
        if let Some(id) = nearest {
            return MapAction::Select(id);
        }
    }
    if !left_down {
        return MapAction::EndStroke;
    }
    if too_close {
        return MapAction::Skip;
    }
    match tool {
        EditorTool::Navigate => MapAction::Skip,
        EditorTool::Sculpt => MapAction::Sculpt,
        EditorTool::Regions => match (selection.layer, selection.region) {
            (Some(layer), Some(region)) => MapAction::Paint { layer, region },
            _ => MapAction::NeedSelection,
        },
        EditorTool::City => if left_just_pressed {
            MapAction::PlaceSettlement
        } else {
            MapAction::Skip
        },
    }
}

/// Status shown after picking a feature: its name when it is stored.
pub open spec fn selection_status_of(features: FeatureStore, id: FeatureId) -> Seq<char> {
    match features.get(id) {
        Some(f) => "Selected "@ + f.name@,
        None => "Feature selected"@,
    }
}

pub fn selection_status(features: &FeatureStore, id: FeatureId) -> (r: String)
    requires
        features.wf(),
    ensures
        r@ == selection_status_of(*features, id),
{
    proof {
        reveal_strlit("Selected ");
        reveal_strlit("Feature selected");
    }
    match features.find(id) {
        Some(f) => {
            let mut text = String::from_str("Selected ");
            text.append(f.name.as_str());
            text
        },
        None => String::from_str("Feature selected"),
    }
}

/// Status shown when painting lacks a layer or region.
pub fn selection_needed() -> (r: String)
    ensures
        r@ == "Select a layer and region first"@,
{
    proof {
        reveal_strlit("Select a layer and region first");
    }
    String::from_str("Select a layer and region first")
}

} // verus!
