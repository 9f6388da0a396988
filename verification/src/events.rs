use vstd::prelude::*;

verus! {

/// The kind of change one poll cycle observed for one file.
#[derive(Clone, Copy, Debug, PartialEq, Eq, Structural)]
pub enum FileEvent {
    Created,
    Updated,
    Deleted,
}

/// One classified change: what happened, and to which file.
#[derive(Clone, Debug, PartialEq, Eq)]
pub struct ChangeEvent {
    pub kind: FileEvent,
    pub path: String,
}

impl View for ChangeEvent {
    type V = (FileEvent, Seq<char>);

    open spec fn view(&self) -> (FileEvent, Seq<char>) {
        (self.kind, self.path@)
    }
}

/// An event list as mathematics: each event as a kind/path pair.
pub open spec fn event_views(s: Seq<ChangeEvent>) -> Seq<(FileEvent, Seq<char>)> {
    s.map_values(|e: ChangeEvent| e@)
}

} // verus!
