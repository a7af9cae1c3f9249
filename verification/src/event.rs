//! The triage event stream: one record per state transition, in the
//! append-only log a visual layer replays.

use vstd::prelude::*;
use crate::timestamp::{now_rfc3339, rfc3339_text};
use crate::workspace::State;

verus! {

/// What happened; mirrors the transition table of the state machine.
#[derive(Clone, Copy, Debug, PartialEq, Eq, Structural)]
pub enum EventKind {
    Claim,
    Promote,
    Reject,
    Requeue,
    Invalidate,
}

/// A single transition record.
#[derive(Clone, Debug)]
pub struct Event {
    pub ts: String,
    pub kind: EventKind,
    pub file: String,
    pub from: Option<State>,
    pub to: Option<State>,
    pub note: Option<String>,
}

/// The log's file name, under `<workspace>/.arghda/`.
pub const EVENTS_FILE: &'static str = "events.jsonl";

impl Event {
    /// A record of `kind` for `file`, stamped with the current time.
    pub fn new(kind: EventKind, file: &str) -> (e: Event)
        ensures
            exists|secs: i64| e.ts@ == rfc3339_text(secs as int),
            e.kind == kind,
            e.file@ == file@,
            e.from is None,
            e.to is None,
            e.note is None,
    {
        Event {
            ts: now_rfc3339(),
            kind,
            file: String::from_str(file),
            from: None,
            to: None,
            note: None,
        }
    }

    /// The same record with its source state set.
    pub fn with_from(self, from: State) -> (e: Event)
        ensures
            e.ts == self.ts,
            e.kind == self.kind,
            e.file == self.file,
            e.from == Some(from),
            e.to == self.to,
            e.note == self.note,
    {
        let mut e = self;
        e.from = Some(from);
        e
    }

    /// The same record with its target state set.
    pub fn with_to(self, to: State) -> (e: Event)
        ensures
            e.ts == self.ts,
            e.kind == self.kind,
            e.file == self.file,
            e.from == self.from,
            e.to == Some(to),
            e.note == self.note,
    {
        let mut e = self;
        e.to = Some(to);
        e
    }

    /// The same record with its note replaced by `note`.
    pub fn with_note(self, note: Option<String>) -> (e: Event)
        ensures
            e.ts == self.ts,
            e.kind == self.kind,
            e.file == self.file,
            e.from == self.from,
            e.to == self.to,
            e.note == note,
    {
        let mut e = self;
        e.note = note;
        e
    }
}

} // verus!
