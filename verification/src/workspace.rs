//! State of the research workspace shell and how each message changes it.
use vstd::prelude::*;
use crate::data::InspectorTab;
use crate::protocol::{initial_snapshot, MapCommand, MapEvent, MapInput, MapSnapshot};
use crate::text::{chars_of, same_text, trim, trim_exec};

verus! {

/// Keys the workspace reacts to.
#[derive(Debug, Clone, Copy, PartialEq, Eq, Structural)]
pub enum ShortcutKey {
    /// The `k` character key.
    K,
    Escape,
    Other,
}

/// What the shell asks the workspace to do. The text editor's own editing
/// actions stay with the editor widget; `Send` carries the draft's text.
#[derive(Debug, Clone)]
pub enum Message {
    Send(String),
    SelectNav(usize),
    SelectInspector(InspectorTab),
    ToggleCommandPalette,
    CloseCommandPalette,
    ToggleGeography,
    ToggleRecording,
    RemoveContext(usize),
    AddContext(&'static str),
    InspectTurn(usize),
    RunAction(&'static str),
    /// A key press; `command` says the platform's command modifier was held.
    KeyPressed { key: ShortcutKey, command: bool, repeat: bool },
    MapInput(MapInput),
    MapCommand(MapCommand),
    RuntimeReady,
}

/// The workspace: navigation, inspector, palette, context chips, the notice
/// line and the last map snapshot.
pub struct Kovia {
    pub selected_nav: usize,
    pub inspector_tab: InspectorTab,
    pub command_open: bool,
    pub geography_open: bool,
    pub recording: bool,
    pub context_chips: Vec<&'static str>,
    pub inspected_turn: usize,
    pub notice: Option<String>,
    pub map_snapshot: MapSnapshot,
}

/// The workspace state that messages change, as plain values.
pub struct KoviaView {
    pub selected_nav: usize,
    pub inspector_tab: InspectorTab,
    pub command_open: bool,
    pub geography_open: bool,
    pub recording: bool,
    pub context_chips: Seq<Seq<char>>,
    pub inspected_turn: usize,
    pub notice: Option<Seq<char>>,
}

pub open spec fn chip_views(chips: Seq<&'static str>) -> Seq<Seq<char>> {
    chips.map_values(|c: &'static str| c@)
}

pub open spec fn notice_view(notice: Option<String>) -> Option<Seq<char>> {
    match notice {
        Some(n) => Some(n@),
        None => None,
    }
}

impl View for Kovia {
    type V = KoviaView;

    open spec fn view(&self) -> KoviaView {
        KoviaView {
            selected_nav: self.selected_nav,
            inspector_tab: self.inspector_tab,
            command_open: self.command_open,
            geography_open: self.geography_open,
            recording: self.recording,
            context_chips: chip_views(self.context_chips@),
            inspected_turn: self.inspected_turn,
            notice: notice_view(self.notice),
        }
    }
}

/// The workspace after a message.
pub open spec fn after_message(w: KoviaView, message: Message) -> KoviaView {
    match message {
        Message::Send(draft) => if trim(draft@).len() > 0 {
            KoviaView { notice: Some("Draft prompt added to the local UI thread"@), ..w }
        } else {
            w
        },
        Message::SelectNav(index) => KoviaView {
            selected_nav: index,
            inspector_tab: if index == 2 {
                InspectorTab::Atlas
            } else {
                w.inspector_tab
            },
            notice: None,
            ..w
        },
        Message::SelectInspector(tab) => KoviaView { inspector_tab: tab, command_open: false, notice: None, ..w },
        Message::ToggleCommandPalette => KoviaView { command_open: !w.command_open, ..w },
        Message::CloseCommandPalette => KoviaView { command_open: false, ..w },
        Message::ToggleGeography => KoviaView { geography_open: !w.geography_open, ..w },
        Message::ToggleRecording => KoviaView { recording: !w.recording, notice: None, ..w },
        Message::RemoveContext(index) => if index < w.context_chips.len() {
            KoviaView { context_chips: w.context_chips.remove(index as int), ..w }
        } else {
            w
        },
        Message::AddContext(label) => KoviaView {
            context_chips: if w.context_chips.contains(label@) {
                w.context_chips
            } else {
                w.context_chips.push(label@)
            },
            notice: None,
            ..w
        },
        Message::InspectTurn(index) => KoviaView {
            inspected_turn: index,
            inspector_tab: if index == 0 {
                InspectorTab::Context
            } else {
                InspectorTab::Sources
            },
            ..w
        },
        Message::RunAction(action) => KoviaView { notice: Some(action@), command_open: false, ..w },
        Message::KeyPressed { key, command, repeat } => if repeat {
            w
        } else {
            match key {
                ShortcutKey::K => if command {
                    KoviaView { command_open: !w.command_open, ..w }
                } else {
                    w
                },
                ShortcutKey::Escape => if w.command_open {
                    KoviaView { command_open: false, ..w }
                } else {
                    w
                },
                ShortcutKey::Other => w,
            }
        },
        Message::MapInput(_) | Message::MapCommand(_) => w,
        Message::RuntimeReady => KoviaView { notice: Some("Iced task runtime connected"@), ..w },
    }
}

/// Whether a message clears the draft: sending one with text in it.
pub open spec fn clears_draft(message: Message) -> bool {
    match message {
        Message::Send(draft) => trim(draft@).len() > 0,
        _ => false,
    }
}

fn chip_present(chips: &Vec<&'static str>, label: &'static str) -> (r: bool)
    ensures
        r == chip_views(chips@).contains(label@),
{
    let mut i: usize = 0;
    while i < chips.len()
        invariant
            i <= chips@.len(),
            forall|j: int| 0 <= j < i ==> chips@[j]@ != label@,
        decreases chips.len() - i,
    {
        if same_text(chips[i], label) {
            assert(chip_views(chips@)[i as int] == label@);
            return true;
        }
        i = i + 1;
    }
    proof {
        if chip_views(chips@).contains(label@) {
            let k = choose|k: int| 0 <= k < chip_views(chips@).len() && chip_views(chips@)[k] == label@;
            assert(chips@[k]@ == label@);
        }
    }
    false
}

impl Kovia {
    /// The workspace as it opens: the chat in view, the context inspector,
    /// four context chips, the first answer inspected, and the map snapshot
    /// the shell starts from.
    pub fn new() -> (r: Kovia)
        ensures
            initial_snapshot(r.map_snapshot),
            r@.selected_nav == 1,
            r@.inspector_tab == InspectorTab::Context,
            !r@.command_open,
            r@.geography_open,
            !r@.recording,
            r@.context_chips == seq!["Eastern Rift"@, "Clifflands"@, "3 notes"@, "Map selection"@],
            r@.inspected_turn == 1,
            r@.notice is None,
    {
        let mut chips: Vec<&'static str> = Vec::new();
        chips.push("Eastern Rift");
        chips.push("Clifflands");
        chips.push("3 notes");
        chips.push("Map selection");
        let r = Kovia {
            selected_nav: 1,
            inspector_tab: InspectorTab::Context,
            command_open: false,
            geography_open: true,
            recording: false,
            context_chips: chips,
            inspected_turn: 1,
            notice: None,
            map_snapshot: MapSnapshot::default(),
        };
        assert(chip_views(r.context_chips@) =~= seq!["Eastern Rift"@, "Clifflands"@, "3 notes"@, "Map selection"@]);
        r
    }

    /// Applies a message; says whether the draft should be cleared.
    pub fn update(&mut self, message: Message) -> (clear_draft: bool)
        ensures
            final(self)@ == after_message(old(self)@, message),
            clear_draft == clears_draft(message),
            final(self).map_snapshot == old(self).map_snapshot,
    {
        let ghost m = message;
        match message {
            Message::Send(draft) => {
                if trim_exec(&chars_of(draft.as_str())).len() > 0 {
                    proof {
                        reveal_strlit("Draft prompt added to the local UI thread");
                    }
                    self.notice = Some(String::from_str("Draft prompt added to the local UI thread"));
                    return true;
                }
            },
            Message::SelectNav(index) => {
                self.selected_nav = index;
                if index == 2 {
                    self.inspector_tab = InspectorTab::Atlas;
                }
                self.notice = None;
            },
            Message::SelectInspector(tab) => {
                self.inspector_tab = tab;
                self.command_open = false;
                self.notice = None;
            },
            Message::ToggleCommandPalette => self.command_open = !self.command_open,
            Message::CloseCommandPalette => self.command_open = false,
            Message::ToggleGeography => self.geography_open = !self.geography_open,
            Message::ToggleRecording => {
                self.recording = !self.recording;
                self.notice = None;
            },
            Message::RemoveContext(index) => {
                if index < self.context_chips.len() {
                    let ghost before = self.context_chips@;
                    self.context_chips.remove(index);
                    assert(chip_views(self.context_chips@) =~= chip_views(before).remove(index as int));
                }
            },
            Message::AddContext(label) => {
                if !chip_present(&self.context_chips, label) {
                    let ghost before = self.context_chips@;
                    self.context_chips.push(label);
                    assert(chip_views(self.context_chips@) =~= chip_views(before).push(label@));
                }
                self.notice = None;
            },
            Message::InspectTurn(index) => {
                self.inspected_turn = index;
                self.inspector_tab = if index == 0 {
                    InspectorTab::Context
                } else {
                    InspectorTab::Sources
                };
            },
            Message::RunAction(action) => {
                self.notice = Some(String::from_str(action));
                self.command_open = false;
            },
            Message::KeyPressed { key, command, repeat } => {
                if !repeat {
                    match key {
                        ShortcutKey::K => {
                            if command {
                                self.command_open = !self.command_open;
                            }
                        },
                        ShortcutKey::Escape => {
                            if self.command_open {
                                self.command_open = false;
                            }
                        },
                        ShortcutKey::Other => {},
                    }
                }
            },
            Message::MapInput(_) | Message::MapCommand(_) => {},
            Message::RuntimeReady => {
                proof {
                    reveal_strlit("Iced task runtime connected");
                }
                self.notice = Some(String::from_str("Iced task runtime connected"));
            },
        }
        false
    }

    pub fn set_map_snapshot(&mut self, snapshot: MapSnapshot)
        ensures
            final(self).map_snapshot == snapshot,
            final(self)@ == old(self)@,
    {
        self.map_snapshot = snapshot;
    }

    /// Puts a line about a map event on the notice.
    pub fn apply_map_event(&mut self, event: &MapEvent)
        ensures
            final(self)@ == (KoviaView { notice: Some(map_event_notice(*event)), ..old(self)@ }),
            final(self).map_snapshot == old(self).map_snapshot,
    {
        self.notice = Some(map_event_text(event));
    }
}

/// The notice line for a map event.
pub open spec fn map_event_notice(event: MapEvent) -> Seq<char> {
    match event {
        MapEvent::SelectionChanged(Some(_)) => "Atlas selection updated"@,
        MapEvent::SelectionChanged(None) => "Atlas selection cleared"@,
        MapEvent::CameraChanged(_) => "Atlas camera updated"@,
        MapEvent::CommandAccepted { .. } => "Atlas command accepted"@,
        MapEvent::CommandRejected { error } => "Atlas rejected command: "@ + error@,
        MapEvent::ProjectChanged { dirty } => if dirty {
            "Project has unsaved changes"@
        } else {
            "Project is saved"@
        },
        MapEvent::ProjectSaved { path } => "Saved "@ + path@,
        MapEvent::ProjectLoaded { path } => "Loaded "@ + path@,
        MapEvent::ProjectIoFailed { operation, error } => "Could not "@ + operation@ + " project: "@ + error@,
    }
}

pub fn map_event_text(event: &MapEvent) -> (r: String)
    ensures
        r@ == map_event_notice(*event),
{
    proof {
        reveal_strlit("Atlas selection updated");
        reveal_strlit("Atlas selection cleared");
        reveal_strlit("Atlas camera updated");
        reveal_strlit("Atlas command accepted");
        reveal_strlit("Atlas rejected command: ");
        reveal_strlit("Project has unsaved changes");
        reveal_strlit("Project is saved");
        reveal_strlit("Saved ");
        reveal_strlit("Loaded ");
        reveal_strlit("Could not ");
        reveal_strlit(" project: ");
    }
    match event {
        MapEvent::SelectionChanged(Some(_)) => String::from_str("Atlas selection updated"),
        MapEvent::SelectionChanged(None) => String::from_str("Atlas selection cleared"),
        MapEvent::CameraChanged(_) => String::from_str("Atlas camera updated"),
        MapEvent::CommandAccepted { .. } => String::from_str("Atlas command accepted"),
        MapEvent::CommandRejected { error } => {
            let mut t = String::from_str("Atlas rejected command: ");
            t.append(error.as_str());
            t
        },
        MapEvent::ProjectChanged { dirty } => if *dirty {
            String::from_str("Project has unsaved changes")
        } else {
            String::from_str("Project is saved")
        },
        MapEvent::ProjectSaved { path } => {
            let mut t = String::from_str("Saved ");
            t.append(path.as_str());
            t
        },
        MapEvent::ProjectLoaded { path } => {
            let mut t = String::from_str("Loaded ");
            t.append(path.as_str());
            t
        },
        MapEvent::ProjectIoFailed { operation, error } => {
            let mut t = String::from_str("Could not ");
            t.append(operation.as_str());
            t.append(" project: ");
            t.append(error.as_str());
            t
        },
    }
}

/// The atlas status bar's selection line: the selected feature's name and
/// kind, or a note that nothing is selected.
pub open spec fn selection_line_of(snapshot: MapSnapshot) -> Seq<char> {
    match snapshot.selected_feature {
        Some(f) => f.name@ + " · "@ + f.kind@,
        None => "No feature selected"@,
    }
}

pub fn selection_line(snapshot: &MapSnapshot) -> (r: String)
    ensures
        r@ == selection_line_of(*snapshot),
{
    proof {
        reveal_strlit(" · ");
        reveal_strlit("No feature selected");
    }
    match &snapshot.selected_feature {
        Some(f) => {
            let mut t = f.name.clone();
            t.append(" · ");
            t.append(f.kind.as_str());
            t
        },
        None => String::from_str("No feature selected"),
    }
}

/// The atlas status bar's save state.
pub fn save_state_label(snapshot: &MapSnapshot) -> (r: &'static str)
    ensures
        r@ == (if snapshot.project_dirty {
            "Unsaved"@
        } else {
            "Saved"@
        }),
{
    if snapshot.project_dirty {
        "Unsaved"
    } else {
        "Saved"
    }
}

} // verus!
