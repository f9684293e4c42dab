//! The trace event: what an adapter records for one semantic action in a
//! running application.
//!
//! Timestamps are held as milliseconds since the Unix epoch; every
//! temporal rule of the library reads differences of timestamps in
//! whole milliseconds.

use vstd::prelude::*;

use crate::ids::{CommandId, CorrelationId, DomainEntityId, EventSeq, FieldId, ScreenId, SessionId};
use crate::json::JsonValue;
use crate::outcome::Outcome;
use crate::policy::{policy_same, ValuePolicy};

verus! {

/// The kind of a trace event, with its payload.
#[derive(Debug)]
pub enum TraceEventKind {
    /// A screen was opened.
    ScreenOpened { screen_id: ScreenId, params: JsonValue },
    /// A command ran to completion.
    CommandExecuted { command_id: CommandId, args: JsonValue, duration_ms: u64, outcome: Outcome },
    /// A field's value changed (values wrapped by their privacy policy).
    FieldChanged { field_id: FieldId, before: ValuePolicy, after: ValuePolicy },
    /// An exception escaped to the trace boundary.
    ExceptionThrown { exception_type: String, message: String, stack: Option<String> },
    /// The application navigated between screens.
    NavigationOccurred { from: ScreenId, to: ScreenId },
    /// A validator rejected a field.
    ValidationFailed { validator: String, field_id: FieldId, reason: String },
    /// An asynchronous operation finished.
    AsyncOperationCompleted { operation_id: String, duration_ms: u64, outcome: Outcome },
}

/// One recorded event.
#[derive(Debug)]
pub struct TraceEvent {
    /// Per-session sequence number.
    pub seq: EventSeq,
    /// The session the event belongs to.
    pub session_id: SessionId,
    /// Whole milliseconds since the Unix epoch (rounded down).
    pub ts_ms: i64,
    /// Nanoseconds past `ts_ms` (below one millisecond).
    pub ts_sub_ns: u32,
    /// Links related events, when set.
    pub correlation_id: Option<CorrelationId>,
    /// The domain entity in focus, when there is one.
    pub domain_entity_id: Option<DomainEntityId>,
    /// What happened.
    pub kind: TraceEventKind,
}

impl TraceEventKind {
    /// A copy carrying the same identifiers, texts and values.
    pub fn duplicate(&self) -> (r: Self)
        ensures
            kind_same(*self, r),
    {
        match self {
            TraceEventKind::ScreenOpened { screen_id, params } => TraceEventKind::ScreenOpened {
                screen_id: screen_id.duplicate(),
                params: params.duplicate(),
            },
            TraceEventKind::CommandExecuted { command_id, args, duration_ms, outcome } => {
                TraceEventKind::CommandExecuted {
                    command_id: command_id.duplicate(),
                    args: args.duplicate(),
                    duration_ms: *duration_ms,
                    outcome: outcome_duplicate(outcome),
                }
            },
            TraceEventKind::FieldChanged { field_id, before, after } => TraceEventKind::FieldChanged {
                field_id: FieldId(field_id.0.clone()),
                before: before.duplicate(),
                after: after.duplicate(),
            },
            TraceEventKind::ExceptionThrown { exception_type, message, stack } => {
                TraceEventKind::ExceptionThrown {
                    exception_type: exception_type.clone(),
                    message: message.clone(),
                    stack: match stack {
                        Some(s) => Some(s.clone()),
                        None => None,
                    },
                }
            },
            TraceEventKind::NavigationOccurred { from, to } => TraceEventKind::NavigationOccurred {
                from: from.duplicate(),
                to: to.duplicate(),
            },
            TraceEventKind::ValidationFailed { validator, field_id, reason } => {
                TraceEventKind::ValidationFailed {
                    validator: validator.clone(),
                    field_id: FieldId(field_id.0.clone()),
                    reason: reason.clone(),
                }
            },
            TraceEventKind::AsyncOperationCompleted { operation_id, duration_ms, outcome } => {
                TraceEventKind::AsyncOperationCompleted {
                    operation_id: operation_id.clone(),
                    duration_ms: *duration_ms,
                    outcome: outcome_duplicate(outcome),
                }
            },
        }
    }
}

/// Two outcomes with the same variant and the same failure message.
pub open spec fn outcome_same(a: Outcome, b: Outcome) -> bool {
    match (a, b) {
        (Outcome::Success, Outcome::Success) => true,
        (Outcome::Failure { message: x }, Outcome::Failure { message: y }) => x@ == y@,
        (Outcome::Cancelled, Outcome::Cancelled) => true,
        (Outcome::TimedOut, Outcome::TimedOut) => true,
        _ => false,
    }
}

fn outcome_duplicate(o: &Outcome) -> (r: Outcome)
    ensures
        outcome_same(*o, r),
{
    match o {
        Outcome::Success => Outcome::Success,
        Outcome::Failure { message } => Outcome::Failure { message: message.clone() },
        Outcome::Cancelled => Outcome::Cancelled,
        Outcome::TimedOut => Outcome::TimedOut,
    }
}

/// Two optional texts, both absent or both present with the same text.
pub open spec fn text_option_same(a: Option<String>, b: Option<String>) -> bool {
    match (a, b) {
        (Some(x), Some(y)) => x@ == y@,
        (None, None) => true,
        _ => false,
    }
}

/// Two event kinds with the same content: same variant, same
/// identifiers, texts, values and outcomes.
pub open spec fn kind_same(a: TraceEventKind, b: TraceEventKind) -> bool {
    match (a, b) {
        (
            TraceEventKind::ScreenOpened { screen_id: s1, params: p1 },
            TraceEventKind::ScreenOpened { screen_id: s2, params: p2 },
        ) => s1@ == s2@ && p1.model() == p2.model(),
        (
            TraceEventKind::CommandExecuted { command_id: c1, args: a1, duration_ms: d1, outcome: o1 },
            TraceEventKind::CommandExecuted { command_id: c2, args: a2, duration_ms: d2, outcome: o2 },
        ) => c1@ == c2@ && a1.model() == a2.model() && d1 == d2 && outcome_same(o1, o2),
        (
            TraceEventKind::FieldChanged { field_id: f1, before: b1, after: a1 },
            TraceEventKind::FieldChanged { field_id: f2, before: b2, after: a2 },
        ) => f1@ == f2@ && policy_same(b1, b2) && policy_same(a1, a2),
        (
            TraceEventKind::ExceptionThrown { exception_type: t1, message: m1, stack: k1 },
            TraceEventKind::ExceptionThrown { exception_type: t2, message: m2, stack: k2 },
        ) => t1@ == t2@ && m1@ == m2@ && text_option_same(k1, k2),
        (
            TraceEventKind::NavigationOccurred { from: f1, to: t1 },
            TraceEventKind::NavigationOccurred { from: f2, to: t2 },
        ) => f1@ == f2@ && t1@ == t2@,
        (
            TraceEventKind::ValidationFailed { validator: v1, field_id: f1, reason: r1 },
            TraceEventKind::ValidationFailed { validator: v2, field_id: f2, reason: r2 },
        ) => v1@ == v2@ && f1@ == f2@ && r1@ == r2@,
        (
            TraceEventKind::AsyncOperationCompleted { operation_id: i1, duration_ms: d1, outcome: o1 },
            TraceEventKind::AsyncOperationCompleted { operation_id: i2, duration_ms: d2, outcome: o2 },
        ) => i1@ == i2@ && d1 == d2 && outcome_same(o1, o2),
        _ => false,
    }
}

/// Two optional entity ids, both absent or both present with the same text.
pub open spec fn entity_option_same(a: Option<DomainEntityId>, b: Option<DomainEntityId>) -> bool {
    match (a, b) {
        (Some(x), Some(y)) => x.0@ == y.0@,
        (None, None) => true,
        _ => false,
    }
}

/// The instant of an event, in nanoseconds since the Unix epoch.
pub open spec fn instant_ns(e: TraceEvent) -> int {
    e.ts_ms * 1_000_000 + e.ts_sub_ns
}

/// Two events with the same content.
pub open spec fn event_same(a: TraceEvent, b: TraceEvent) -> bool {
    &&& a.seq == b.seq
    &&& a.session_id == b.session_id
    &&& a.ts_ms == b.ts_ms
    &&& a.ts_sub_ns == b.ts_sub_ns
    &&& a.correlation_id == b.correlation_id
    &&& entity_option_same(a.domain_entity_id, b.domain_entity_id)
    &&& kind_same(a.kind, b.kind)
}

/// Two event sequences with the same content, event by event.
pub open spec fn events_same(a: Seq<TraceEvent>, b: Seq<TraceEvent>) -> bool {
    a.len() == b.len() && forall|i: int| 0 <= i < a.len() ==> event_same(#[trigger] a[i], b[i])
}

impl TraceEvent {
    /// A copy that every rule of the library reads alike.
    pub fn duplicate(&self) -> (r: Self)
        ensures
            event_same(*self, r),
    {
        TraceEvent {
            seq: self.seq,
            session_id: self.session_id,
            ts_ms: self.ts_ms,
            ts_sub_ns: self.ts_sub_ns,
            correlation_id: self.correlation_id,
            domain_entity_id: match &self.domain_entity_id {
                Some(d) => Some(DomainEntityId(d.0.clone())),
                None => None,
            },
            kind: self.kind.duplicate(),
        }
    }
}

} // verus!
