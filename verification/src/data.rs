//! Status vocabulary of the research workspace and its fixture records.
use vstd::prelude::*;

verus! {

#[derive(Debug, Clone, Copy, PartialEq, Eq, Structural)]
pub enum Status {
    Canon,
    Working,
    Unresolved,
    Contradiction,
}

impl Status {
    pub open spec fn label_of(self) -> Seq<char> {
        match self {
            Status::Canon => "Canon"@,
            Status::Working => "Working"@,
            Status::Unresolved => "Unresolved"@,
            Status::Contradiction => "Contradiction"@,
        }
    }

    pub fn label(self) -> (r: &'static str)
        ensures
            r@ == self.label_of(),
    {
        match self {
            Status::Canon => "Canon",
            Status::Working => "Working",
            Status::Unresolved => "Unresolved",
            Status::Contradiction => "Contradiction",
        }
    }
}

pub struct Note {
    pub name: &'static str,
    pub path: &'static str,
    pub excerpt: &'static str,
    pub rank: &'static str,
    pub status: Status,
}

pub struct TimelineEvent {
    pub label: &'static str,
    pub era: &'static str,
    pub status: Status,
}

/// Tabs of the research inspector. The map tab is `Atlas`.
#[derive(Debug, Clone, Copy, PartialEq, Eq, Structural)]
pub enum InspectorTab {
    Context,
    Atlas,
    Sources,
    Timeline,
}

} // verus!
