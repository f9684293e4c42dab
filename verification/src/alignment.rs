//! What the alignment of two event sequences compares: the label of each
//! event, and the class of substituting one event for another (the same
//! label, the same kind under another identifier, or another kind). The
//! costs attached to each class are the caller's.

use vstd::prelude::*;

use crate::event::{TraceEvent, TraceEventKind};

verus! {

/// The label of an event kind: its kind and its identifying payload.
pub open spec fn label_text(k: TraceEventKind) -> Seq<char> {
    match k {
        TraceEventKind::ScreenOpened { screen_id, .. } => "ScreenOpened:"@ + screen_id@,
        TraceEventKind::CommandExecuted { command_id, .. } => "CommandExecuted:"@ + command_id@,
        TraceEventKind::FieldChanged { field_id, .. } => "FieldChanged:"@ + field_id@,
        TraceEventKind::ExceptionThrown { exception_type, .. } => "ExceptionThrown:"@ + exception_type@,
        TraceEventKind::NavigationOccurred { from, to } => "NavigationOccurred:"@ + from@ + "→"@ + to@,
        TraceEventKind::ValidationFailed { validator, field_id, .. } => "ValidationFailed:"@ + validator@
            + ":"@ + field_id@,
        TraceEventKind::AsyncOperationCompleted { operation_id, .. } => "AsyncOperationCompleted:"@
            + operation_id@,
    }
}

/// The position of an event kind among the seven kinds.
pub open spec fn kind_rank(k: TraceEventKind) -> u8 {
    match k {
        TraceEventKind::ScreenOpened { .. } => 0,
        TraceEventKind::CommandExecuted { .. } => 1,
        TraceEventKind::FieldChanged { .. } => 2,
        TraceEventKind::ExceptionThrown { .. } => 3,
        TraceEventKind::NavigationOccurred { .. } => 4,
        TraceEventKind::ValidationFailed { .. } => 5,
        TraceEventKind::AsyncOperationCompleted { .. } => 6,
    }
}

/// One step of an alignment.
#[derive(Clone, Copy, Debug, PartialEq, Eq, Structural)]
pub enum Op {
    /// Both events consumed, at no cost.
    Match,
    /// Both events consumed, at a cost.
    Substitute,
    /// An event of the second sequence consumed.
    Insert,
    /// An event of the first sequence consumed.
    Delete,
}

/// How one event stands to another when substituted for it.
#[derive(Clone, Copy, Debug, PartialEq, Eq, Structural)]
pub enum Substitution {
    /// The two labels are equal.
    Match,
    /// The same kind, with another identifier.
    SameKind,
    /// Two different kinds.
    OtherKind,
}

/// The label of an event: its kind and its identifying payload, such as
/// `CommandExecuted:Declaration.Save` or `NavigationOccurred:A→B`.
pub fn event_label(event: &TraceEvent) -> (r: String)
    ensures
        r@ == label_text(event.kind),
{
    let mut s = String::new();
    match &event.kind {
        TraceEventKind::ScreenOpened { screen_id, .. } => {
            s.append("ScreenOpened:");
            s.append(screen_id.as_str());
        },
        TraceEventKind::CommandExecuted { command_id, .. } => {
            s.append("CommandExecuted:");
            s.append(command_id.as_str());
        },
        TraceEventKind::FieldChanged { field_id, .. } => {
            s.append("FieldChanged:");
            s.append(field_id.as_str());
        },
        TraceEventKind::ExceptionThrown { exception_type, .. } => {
            s.append("ExceptionThrown:");
            s.append(exception_type.as_str());
        },
        TraceEventKind::NavigationOccurred { from, to } => {
            s.append("NavigationOccurred:");
            s.append(from.as_str());
            s.append("→");
            s.append(to.as_str());
        },
        TraceEventKind::ValidationFailed { validator, field_id, .. } => {
            s.append("ValidationFailed:");
            s.append(validator.as_str());
            s.append(":");
            s.append(field_id.as_str());
        },
        TraceEventKind::AsyncOperationCompleted { operation_id, .. } => {
            s.append("AsyncOperationCompleted:");
            s.append(operation_id.as_str());
        },
    }
    assert(s@ =~= label_text(event.kind));
    s
}

/// The position of an event's kind among the seven kinds.
pub fn kind_position(kind: &TraceEventKind) -> (r: u8)
    ensures
        r == kind_rank(*kind),
{
    match kind {
        TraceEventKind::ScreenOpened { .. } => 0,
        TraceEventKind::CommandExecuted { .. } => 1,
        TraceEventKind::FieldChanged { .. } => 2,
        TraceEventKind::ExceptionThrown { .. } => 3,
        TraceEventKind::NavigationOccurred { .. } => 4,
        TraceEventKind::ValidationFailed { .. } => 5,
        TraceEventKind::AsyncOperationCompleted { .. } => 6,
    }
}

/// How `b` stands to `a` when substituted for it: equal labels match;
/// otherwise events of one kind differ by identifier, and events of two
/// kinds differ in kind.
pub fn substitution(a: &TraceEvent, b: &TraceEvent) -> (r: Substitution)
    ensures
        r == if label_text(a.kind) == label_text(b.kind) {
            Substitution::Match
        } else if kind_rank(a.kind) == kind_rank(b.kind) {
            Substitution::SameKind
        } else {
            Substitution::OtherKind
        },
{
    let la = event_label(a);
    let lb = event_label(b);
    if la == lb {
        Substitution::Match
    } else if kind_position(&a.kind) == kind_position(&b.kind) {
        Substitution::SameKind
    } else {
        Substitution::OtherKind
    }
}

} // verus!
