//! Event statistics, session grouping, fold totals and the oracle's exit
//! code and text summary.

use semantx_trace::analysis::{accumulate, analyze_events, group_by_session, is_error, kind_name, oracle_exit_code, text_summary};
use semantx_trace::event::{TraceEvent, TraceEventKind};
use semantx_trace::ids::{CommandId, EventSeq, ScreenId, SessionId};
use semantx_trace::json::JsonValue;
use semantx_trace::normalizer::fold::FoldReport;
use semantx_trace::oracle::engine::OracleEngine;
use semantx_trace::outcome::Outcome;
use semantx_trace::session::Session;

fn ev(seq: u64, sid: u128, kind: TraceEventKind) -> TraceEvent {
    TraceEvent {
        seq: EventSeq::new(seq),
        session_id: SessionId::new(sid),
        ts_ms: 1_780_000_000_000,
        ts_sub_ns: 0,
        correlation_id: None,
        domain_entity_id: None,
        kind,
    }
}

fn empty() -> JsonValue {
    JsonValue::Object(Vec::new())
}

fn count_of(per_kind: &[(String, usize)], kind: &str) -> Option<usize> {
    per_kind.iter().find(|(k, _)| k == kind).map(|(_, c)| *c)
}

#[test]
fn empty_stream() {
    let report = analyze_events(&[]);
    assert_eq!(report.sessions, 0);
    assert_eq!(report.events, 0);
    assert_eq!(report.errors, 0);
    assert!(report.per_kind.is_empty());
}

#[test]
fn counts_sessions_kinds_and_errors() {
    let events = vec![
        ev(0, 1, TraceEventKind::ScreenOpened { screen_id: ScreenId::new("Editor"), params: empty() }),
        ev(
            1,
            1,
            TraceEventKind::CommandExecuted {
                command_id: CommandId::new("Graph47.Recalculate"),
                args: empty(),
                duration_ms: 42,
                outcome: Outcome::Success,
            },
        ),
        ev(2, 1, TraceEventKind::ExceptionThrown { exception_type: "X".to_owned(), message: "boom".to_owned(), stack: None }),
        ev(
            0,
            2,
            TraceEventKind::CommandExecuted {
                command_id: CommandId::new("Declaration.Save"),
                args: empty(),
                duration_ms: 10,
                outcome: Outcome::Failure { message: "denied".to_owned() },
            },
        ),
    ];
    let report = analyze_events(&events);
    assert_eq!(report.sessions, 2);
    assert_eq!(report.events, 4);
    assert_eq!(report.errors, 2);
    assert_eq!(count_of(&report.per_kind, "CommandExecuted"), Some(2));
    assert_eq!(count_of(&report.per_kind, "ScreenOpened"), Some(1));
    assert_eq!(count_of(&report.per_kind, "ExceptionThrown"), Some(1));
    let kinds: Vec<&str> = report.per_kind.iter().map(|(k, _)| k.as_str()).collect();
    assert_eq!(kinds, vec!["CommandExecuted", "ExceptionThrown", "ScreenOpened"]);
}

#[test]
fn error_classification() {
    let validation = TraceEventKind::ValidationFailed {
        validator: "Required".to_owned(),
        field_id: semantx_trace::ids::FieldId::new("F"),
        reason: "empty".to_owned(),
    };
    assert!(is_error(&validation));
    assert_eq!(kind_name(&validation), "ValidationFailed");
    let nav = TraceEventKind::NavigationOccurred { from: ScreenId::new("A"), to: ScreenId::new("B") };
    assert!(!is_error(&nav));
    let op = TraceEventKind::AsyncOperationCompleted { operation_id: "op".to_owned(), duration_ms: 3, outcome: Outcome::Cancelled };
    assert!(is_error(&op));
    assert_eq!(kind_name(&op), "AsyncOperationCompleted");
}

#[test]
fn groups_sessions_in_first_seen_order() {
    let events = vec![
        ev(0, 7, TraceEventKind::NavigationOccurred { from: ScreenId::new("A"), to: ScreenId::new("B") }),
        ev(0, 3, TraceEventKind::NavigationOccurred { from: ScreenId::new("C"), to: ScreenId::new("D") }),
        ev(1, 7, TraceEventKind::NavigationOccurred { from: ScreenId::new("B"), to: ScreenId::new("E") }),
    ];
    let groups = group_by_session(events);
    assert_eq!(groups.len(), 2);
    assert_eq!(groups[0].0, SessionId::new(7));
    assert_eq!(groups[0].1.len(), 2);
    assert_eq!(groups[0].1[1].seq, EventSeq::new(1));
    assert_eq!(groups[1].0, SessionId::new(3));
    assert_eq!(groups[1].1.len(), 1);
    assert!(group_by_session(Vec::new()).is_empty());
}

#[test]
fn fold_totals_add_up() {
    let mut totals = FoldReport::default();
    let one = FoldReport { input_events: 5, output_actions: 2, collapsed_bursts: 1, dropped_noise: 2, session_pauses: 1 };
    accumulate(&mut totals, one);
    accumulate(&mut totals, one);
    assert_eq!(totals, FoldReport { input_events: 10, output_actions: 4, collapsed_bursts: 2, dropped_noise: 4, session_pauses: 2 });
}

fn session_of(kinds: Vec<TraceEventKind>) -> Session<TraceEvent> {
    let events: Vec<TraceEvent> = kinds.into_iter().enumerate().map(|(i, k)| ev(i as u64, 1, k)).collect();
    Session::new(SessionId::new(1), events).expect("non-empty")
}

#[test]
fn oracle_exit_codes() {
    let engine = OracleEngine::new().with_builtin_rules();
    let clean = session_of(vec![TraceEventKind::ScreenOpened { screen_id: ScreenId::new("Home"), params: empty() }]);
    let revisit = session_of(vec![
        TraceEventKind::ScreenOpened { screen_id: ScreenId::new("Home"), params: empty() },
        TraceEventKind::ScreenOpened { screen_id: ScreenId::new("Home"), params: empty() },
    ]);
    let crash = session_of(vec![TraceEventKind::ExceptionThrown { exception_type: "E".to_owned(), message: "m".to_owned(), stack: None }]);
    assert_eq!(oracle_exit_code(&engine.run_all(std::slice::from_ref(&clean))), 0);
    assert_eq!(oracle_exit_code(&engine.run_all(&[revisit])), 1);
    assert_eq!(oracle_exit_code(&engine.run_all(&[clean, crash])), 2);
    assert_eq!(oracle_exit_code(&[]), 0);
}

#[test]
fn oracle_text_summary() {
    let engine = OracleEngine::new().with_builtin_rules();
    let crash = session_of(vec![TraceEventKind::ExceptionThrown { exception_type: "E".to_owned(), message: "m".to_owned(), stack: None }]);
    let text = text_summary(&engine.run_all(&[crash]));
    assert!(text.starts_with("sessions: 1  passed: 0  failed: 1\n"));
    assert!(text.contains("  [FAIL] session=00000000-0000-0000-0000-000000000001 rule=NoUnhandledException\n       Critical: Unhandled exception: E: m\n"));
    assert!(text.contains("  [PASS] session=00000000-0000-0000-0000-000000000001 rule=CommandMustSucceed\n"));
}
