//! Event labels and substitution classes for sequence alignment.

use semantx_trace::alignment::{event_label, kind_position, substitution, Substitution};
use semantx_trace::event::{TraceEvent, TraceEventKind};
use semantx_trace::ids::{CommandId, EventSeq, FieldId, ScreenId, SessionId};
use semantx_trace::json::JsonValue;
use semantx_trace::outcome::Outcome;

fn ev(kind: TraceEventKind) -> TraceEvent {
    TraceEvent {
        seq: EventSeq::new(0),
        session_id: SessionId::new(0),
        ts_ms: 0,
        ts_sub_ns: 0,
        correlation_id: None,
        domain_entity_id: None,
        kind,
    }
}

fn screen(id: &str) -> TraceEvent {
    ev(TraceEventKind::ScreenOpened { screen_id: ScreenId::new(id), params: JsonValue::Object(Vec::new()) })
}

fn command(id: &str) -> TraceEvent {
    ev(TraceEventKind::CommandExecuted {
        command_id: CommandId::new(id),
        args: JsonValue::Object(Vec::new()),
        duration_ms: 5,
        outcome: Outcome::Success,
    })
}

#[test]
fn labels_name_the_kind_and_the_identifier() {
    assert_eq!(event_label(&screen("Home")), "ScreenOpened:Home");
    assert_eq!(event_label(&command("Declaration.Save")), "CommandExecuted:Declaration.Save");
    let nav = ev(TraceEventKind::NavigationOccurred { from: ScreenId::new("A"), to: ScreenId::new("B") });
    assert_eq!(event_label(&nav), "NavigationOccurred:A→B");
    let val = ev(TraceEventKind::ValidationFailed {
        validator: "Required".to_string(),
        field_id: FieldId::new("Amount"),
        reason: "missing".to_string(),
    });
    assert_eq!(event_label(&val), "ValidationFailed:Required:Amount");
}

#[test]
fn substitution_classes() {
    assert_eq!(substitution(&screen("Home"), &screen("Home")), Substitution::Match);
    assert_eq!(substitution(&screen("Home"), &screen("Detail")), Substitution::SameKind);
    assert_eq!(substitution(&screen("Home"), &command("Home")), Substitution::OtherKind);
    assert_eq!(kind_position(&command("X").kind), 1);
}
