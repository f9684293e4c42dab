//! The built-in oracle rules, the engine, composition and the HTML report.

use semantx_trace::event::{TraceEvent, TraceEventKind};
use semantx_trace::ids::{CommandId, EventSeq, FieldId, ScreenId, SessionId};
use semantx_trace::json::JsonValue;
use semantx_trace::oracle::compose::{AndRule, OrRule, WithinWindowRule};
use semantx_trace::oracle::engine::OracleEngine;
use semantx_trace::oracle::reporter::{format_severity, write_html, HtmlReporter};
use semantx_trace::oracle::rule::{OracleResult, OracleSchedule, Rule, Severity};
use semantx_trace::oracle::rules::{
    BuiltinRule, CommandMustSucceed, Graph47ResultMustBeNonNegative, NoErrorModalAfterCommand,
    NoUnhandledException, ScreenMustNavigateForward, ValidationsPassBeforeSubmit,
};
use semantx_trace::outcome::Outcome;
use semantx_trace::policy::ValuePolicy;
use semantx_trace::session::Session;

fn sid() -> SessionId {
    SessionId::new(1)
}

fn empty() -> JsonValue {
    JsonValue::Object(Vec::new())
}

fn make_event(seq: u64, sid: SessionId, kind: TraceEventKind) -> TraceEvent {
    TraceEvent {
        seq: EventSeq::new(seq),
        session_id: sid,
        ts_ms: seq as i64 * 1000,
        ts_sub_ns: 0,
        correlation_id: None,
        domain_entity_id: None,
        kind,
    }
}

fn session_from(kinds: Vec<TraceEventKind>) -> Session<TraceEvent> {
    let s = sid();
    let events: Vec<TraceEvent> =
        kinds.into_iter().enumerate().map(|(i, k)| make_event(i as u64, s, k)).collect();
    Session::new(s, events).expect("non-empty")
}

fn screen(name: &str) -> TraceEventKind {
    TraceEventKind::ScreenOpened { screen_id: ScreenId::new(name), params: empty() }
}

fn command(name: &str, duration_ms: u64, outcome: Outcome) -> TraceEventKind {
    TraceEventKind::CommandExecuted { command_id: CommandId::new(name), args: empty(), duration_ms, outcome }
}

fn exception(kind: &str, message: &str) -> TraceEventKind {
    TraceEventKind::ExceptionThrown { exception_type: kind.to_owned(), message: message.to_owned(), stack: None }
}

fn navigation(from: &str, to: &str) -> TraceEventKind {
    TraceEventKind::NavigationOccurred { from: ScreenId::new(from), to: ScreenId::new(to) }
}

fn validation(validator: &str, field: &str, reason: &str) -> TraceEventKind {
    TraceEventKind::ValidationFailed {
        validator: validator.to_owned(),
        field_id: FieldId::new(field),
        reason: reason.to_owned(),
    }
}

fn failure(message: &str) -> Outcome {
    Outcome::Failure { message: message.to_owned() }
}

#[test]
fn no_unhandled_exception_pass() {
    let session = session_from(vec![screen("Home")]);
    let result = NoUnhandledException.evaluate(&session);
    assert!(result.passed);
    assert!(result.violations.is_empty());
}

#[test]
fn no_unhandled_exception_fail() {
    let session = session_from(vec![screen("Home"), exception("NullReferenceException", "Object reference not set")]);
    let result = NoUnhandledException.evaluate(&session);
    assert!(!result.passed);
    assert_eq!(result.violations.len(), 1);
    assert_eq!(result.violations[0].severity, Severity::Critical);
    assert!(result.violations[0].message.contains("NullReferenceException"));
}

#[test]
fn no_unhandled_exception_message_and_evidence() {
    let session = session_from(vec![screen("Home"), exception("IOException", "disk")]);
    let result = NoUnhandledException.evaluate(&session);
    assert_eq!(result.rule, "NoUnhandledException");
    assert_eq!(result.violations[0].message, "Unhandled exception: IOException: disk");
    assert_eq!(result.violations[0].evidence, vec![EventSeq::new(1)]);
}

#[test]
fn no_unhandled_exception_multiple_exceptions() {
    let session = session_from(vec![exception("NullRef", "first"), exception("IOException", "second")]);
    let result = NoUnhandledException.evaluate(&session);
    assert!(!result.passed);
    assert_eq!(result.violations.len(), 2);
}

#[test]
fn no_error_modal_pass_no_command() {
    let session = session_from(vec![screen("ErrorScreen")]);
    let result = NoErrorModalAfterCommand.evaluate(&session);
    assert!(result.passed);
}

#[test]
fn no_error_modal_fail() {
    let session = session_from(vec![command("Doc.Load", 1, Outcome::Success), screen("ErrorDialog")]);
    let result = NoErrorModalAfterCommand.evaluate(&session);
    assert!(!result.passed);
    assert_eq!(result.violations.len(), 1);
    assert_eq!(result.violations[0].severity, Severity::Error);
    assert!(result.violations[0].message.contains("ErrorDialog"));
    assert_eq!(result.violations[0].message, "Error/Modal screen 'ErrorDialog' opened after command (seq 0)");
    assert_eq!(result.violations[0].evidence, vec![EventSeq::new(0), EventSeq::new(1)]);
}

#[test]
fn no_error_modal_pass_normal_screen_after_command() {
    let session = session_from(vec![command("Doc.Load", 1, Outcome::Success), screen("Editor")]);
    assert!(NoErrorModalAfterCommand.evaluate(&session).passed);
}

#[test]
fn no_error_modal_detects_modal_suffix() {
    let session = session_from(vec![command("X.Delete", 5, Outcome::Success), screen("ConfirmModal")]);
    let result = NoErrorModalAfterCommand.evaluate(&session);
    assert!(!result.passed);
    assert_eq!(result.violations[0].severity, Severity::Error);
}

#[test]
fn command_must_succeed_pass() {
    let session = session_from(vec![command("Declaration.Save", 10, Outcome::Success)]);
    let rule = CommandMustSucceed::new(&["Declaration.Save"]);
    assert!(rule.evaluate(&session).passed);
}

#[test]
fn command_must_succeed_fail_on_failure_outcome() {
    let session = session_from(vec![command("Declaration.Save", 10, failure("disk full"))]);
    let rule = CommandMustSucceed::new(&["Declaration.Save"]);
    let result = rule.evaluate(&session);
    assert!(!result.passed);
    assert_eq!(result.violations.len(), 1);
    assert_eq!(result.violations[0].severity, Severity::Error);
    assert_eq!(result.violations[0].message, "Command 'Declaration.Save' did not succeed (seq 0)");
}

#[test]
fn command_must_succeed_ignores_unlisted_commands() {
    let session = session_from(vec![command("Other.Op", 10, failure("oops"))]);
    let rule = CommandMustSucceed::new(&["Declaration.Save"]);
    assert!(rule.evaluate(&session).passed, "unlisted command failure should not be flagged");
}

#[test]
fn command_must_succeed_empty_set_always_passes() {
    let session = session_from(vec![command("Anything", 1, failure("meh"))]);
    let none: [&str; 0] = [];
    let rule = CommandMustSucceed::new(&none);
    assert!(rule.evaluate(&session).passed);
}

#[test]
fn command_must_succeed_keeps_each_id_once() {
    let rule = CommandMustSucceed::new(&["A", "B", "A"]);
    assert_eq!(rule.command_ids.len(), 2);
}

#[test]
fn screen_navigate_forward_pass() {
    let session = session_from(vec![screen("Home"), navigation("Home", "Editor"), navigation("Editor", "Confirm")]);
    assert!(ScreenMustNavigateForward.evaluate(&session).passed);
}

#[test]
fn screen_navigate_forward_fail_on_revisit() {
    let session = session_from(vec![screen("Home"), navigation("Home", "Editor"), navigation("Editor", "Home")]);
    let result = ScreenMustNavigateForward.evaluate(&session);
    assert!(!result.passed);
    assert_eq!(result.violations.len(), 1);
    assert_eq!(result.violations[0].severity, Severity::Warning);
    assert!(result.violations[0].message.contains("Home"));
}

#[test]
fn validations_pass_before_submit_pass_no_failures() {
    let session = session_from(vec![command("Form.Submit", 1, Outcome::Success)]);
    assert!(ValidationsPassBeforeSubmit::default().evaluate(&session).passed);
}

#[test]
fn validations_pass_before_submit_fail() {
    let session = session_from(vec![
        validation("Required", "Customer.Name", "must not be empty"),
        command("Form.Submit", 1, Outcome::Success),
    ]);
    let result = ValidationsPassBeforeSubmit::default().evaluate(&session);
    assert!(!result.passed);
    assert_eq!(result.violations.len(), 1);
    assert_eq!(result.violations[0].severity, Severity::Error);
    assert!(result.violations[0].message.contains("1 outstanding"));
}

#[test]
fn validations_pass_before_submit_cleared_by_navigation() {
    let session = session_from(vec![
        validation("Required", "Customer.Name", "empty"),
        navigation("FormScreen", "HomeScreen"),
        command("Form.Save", 1, Outcome::Success),
    ]);
    assert!(ValidationsPassBeforeSubmit::default().evaluate(&session).passed, "navigation should clear pending failures");
}

#[test]
fn validations_pass_before_submit_cleared_by_non_submit_command() {
    let session = session_from(vec![
        validation("Required", "X", "empty"),
        command("Form.Recalculate", 1, Outcome::Success),
        command("Form.Save", 1, Outcome::Success),
    ]);
    assert!(
        ValidationsPassBeforeSubmit::default().evaluate(&session).passed,
        "non-submit command should clear pending failures"
    );
}

#[test]
fn fires_when_recalculate_followed_by_negative_exception() {
    let session = session_from(vec![
        command("Graph47.Recalculate", 200, Outcome::Success),
        exception("NegativePaymentException", "***"),
    ]);
    let result = Graph47ResultMustBeNonNegative.evaluate(&session);
    assert!(!result.passed);
    assert_eq!(result.violations.len(), 1);
    assert_eq!(result.violations[0].severity, Severity::Error);
}

#[test]
fn silent_when_recalculate_followed_by_unrelated_event() {
    let session = session_from(vec![command("Graph47.Recalculate", 200, Outcome::Success), screen("ExportDialog")]);
    assert!(Graph47ResultMustBeNonNegative.evaluate(&session).passed);
}

#[test]
fn silent_when_recalculate_fails() {
    let session = session_from(vec![
        command("Graph47.Recalculate", 200, failure("timeout")),
        exception("NegativePaymentException", "***"),
    ]);
    assert!(Graph47ResultMustBeNonNegative.evaluate(&session).passed, "rule must not fire when command already failed");
}

#[test]
fn engine_with_builtin_rules_runs_all_five() {
    let engine = OracleEngine::new().with_builtin_rules();
    assert_eq!(engine.rules().len(), 5);
    let session = session_from(vec![screen("Home")]);
    let report = engine.run(&session);
    assert!(report.all_passed());
    assert!(report.max_severity().is_none());
}

#[test]
fn engine_run_all_aggregates() {
    let engine = OracleEngine::new().with_builtin_rules();
    let s1 = session_from(vec![screen("Home")]);
    let s2 = session_from(vec![exception("Boom", "kaboom")]);
    let reports = engine.run_all(&[s1, s2]);
    assert_eq!(reports.len(), 2);
    assert!(reports[0].all_passed());
    assert!(!reports[1].all_passed());
    assert_eq!(reports[1].max_severity(), Some(Severity::Critical));
}

#[test]
fn engine_results_do_not_depend_on_rule_order() {
    let session = session_from(vec![
        screen("Editor"),
        command("Cmd.Save", 1, Outcome::Success),
        exception("NullRef", "boom"),
        navigation("Editor", "Editor"),
    ]);
    let mut engine1 = OracleEngine::new();
    engine1.add_rule(BuiltinRule::NoUnhandledException(NoUnhandledException));
    engine1.add_rule(BuiltinRule::NoErrorModalAfterCommand(NoErrorModalAfterCommand));
    engine1.add_rule(BuiltinRule::ScreenMustNavigateForward(ScreenMustNavigateForward));
    let mut engine2 = OracleEngine::new();
    engine2.add_rule(BuiltinRule::ScreenMustNavigateForward(ScreenMustNavigateForward));
    engine2.add_rule(BuiltinRule::NoErrorModalAfterCommand(NoErrorModalAfterCommand));
    engine2.add_rule(BuiltinRule::NoUnhandledException(NoUnhandledException));
    let mut r1: Vec<(String, bool)> = engine1.run(&session).results.into_iter().map(|r| (r.rule, r.passed)).collect();
    let mut r2: Vec<(String, bool)> = engine2.run(&session).results.into_iter().map(|r| (r.rule, r.passed)).collect();
    r1.sort();
    r2.sort();
    assert_eq!(r1, r2);
}

#[test]
fn builtin_rule_names_and_schedules() {
    let engine = OracleEngine::new().with_builtin_rules();
    let names: Vec<String> = engine.rules().iter().map(|r| r.name()).collect();
    assert_eq!(
        names,
        vec![
            "NoUnhandledException",
            "NoErrorModalAfterCommand",
            "CommandMustSucceed",
            "ScreenMustNavigateForward",
            "ValidationsPassBeforeSubmit"
        ]
    );
    assert!(engine.rules().iter().all(|r| r.schedule() == OracleSchedule::PerScenario));
    assert_eq!(Graph47ResultMustBeNonNegative.name(), "Graph47.ResultMustBeNonNegative");
}

#[test]
fn and_rule_collects_every_violation() {
    let rule = AndRule::new(
        "both",
        vec![
            BuiltinRule::NoUnhandledException(NoUnhandledException),
            BuiltinRule::NoErrorModalAfterCommand(NoErrorModalAfterCommand),
        ],
    );
    let session = session_from(vec![command("X.Do", 1, Outcome::Success), screen("ErrorDialog"), exception("E", "m")]);
    let result = rule.evaluate(&session);
    assert_eq!(result.rule, "both");
    assert!(!result.passed);
    assert_eq!(result.violations.len(), 2);
    assert_eq!(result.violations[0].rule, "NoUnhandledException");
    assert_eq!(result.violations[1].rule, "NoErrorModalAfterCommand");
    assert_eq!(rule.schedule(), OracleSchedule::PerScenario);
    assert!(rule.evaluate(&session_from(vec![screen("Home")])).passed);
}

#[test]
fn or_rule_passes_when_one_passes() {
    let rule = OrRule::new(
        "either",
        vec![
            BuiltinRule::NoUnhandledException(NoUnhandledException),
            BuiltinRule::NoErrorModalAfterCommand(NoErrorModalAfterCommand),
        ],
    );
    let only_exception = session_from(vec![exception("E", "m")]);
    let result = rule.evaluate(&only_exception);
    assert!(result.passed);
    assert!(result.violations.is_empty());
    let both = session_from(vec![command("X.Do", 1, Outcome::Success), screen("ErrorDialog"), exception("E", "m")]);
    let failed = rule.evaluate(&both);
    assert!(!failed.passed);
    assert_eq!(failed.rule, "either");
    assert_eq!(failed.violations.len(), 2);
}

#[test]
fn within_window_evaluates_the_whole_session_directly() {
    let rule = WithinWindowRule::new(NoUnhandledException, 1500);
    assert_eq!(rule.name(), "NoUnhandledException");
    assert_eq!(rule.schedule(), OracleSchedule::WindowBased { window_ms: 1500 });
    let late = session_from(vec![screen("Home"), screen("Other"), exception("E", "m")]);
    let result = rule.evaluate(&late);
    assert!(!result.passed, "a direct evaluation sees the exception 2 s in");
    assert_eq!(result.violations.len(), 1);
    let clean = session_from(vec![screen("Home"), screen("Other")]);
    assert!(rule.evaluate(&clean).passed);
}

#[test]
fn or_rule_with_no_inner_rules_fails() {
    let rule: OrRule<NoUnhandledException> = OrRule::new("none", Vec::new());
    let result = rule.evaluate(&session_from(vec![screen("Home")]));
    assert!(!result.passed);
    assert!(result.violations.is_empty());
    assert_eq!(result.rule, "none");
}

#[test]
fn validations_pass_before_submit_only_the_next_event_counts() {
    let changed = TraceEventKind::FieldChanged {
        field_id: FieldId::new("X"),
        before: ValuePolicy::Removed,
        after: ValuePolicy::Removed,
    };
    let session = session_from(vec![
        validation("Required", "X", "empty"),
        changed,
        command("Form.Submit", 1, Outcome::Success),
    ]);
    assert!(ValidationsPassBeforeSubmit::default().evaluate(&session).passed);
    let twice = session_from(vec![
        validation("Required", "X", "empty"),
        validation("Range", "Y", "too big"),
        command("Form.Save", 1, Outcome::Success),
    ]);
    let result = ValidationsPassBeforeSubmit::default().evaluate(&twice);
    assert_eq!(result.violations.len(), 1);
    assert!(result.violations[0].message.contains("2 outstanding"));
    assert_eq!(result.violations[0].evidence.len(), 3);
}

#[test]
fn results_pass_and_fail() {
    let p = OracleResult::pass("R");
    assert!(p.passed);
    assert_eq!(p.rule, "R");
    assert!(p.violations.is_empty());
    let f = OracleResult::fail("R", Vec::new());
    assert!(f.passed);
}

#[test]
fn severity_labels() {
    assert_eq!(format_severity(Severity::Warning), "WARN");
    assert_eq!(format_severity(Severity::Error), "ERR");
    assert_eq!(format_severity(Severity::Critical), "CRIT");
    assert!(Severity::Warning < Severity::Error && Severity::Error < Severity::Critical);
}

#[test]
fn html_report_summarises_and_lists_rows() {
    let engine = OracleEngine::new().with_builtin_rules();
    let reports = engine.run_all(&[session_from(vec![screen("Home")]), session_from(vec![exception("Boom", "kaboom")])]);
    let mut page = String::new();
    HtmlReporter::write(&reports, &mut page);
    assert!(page.starts_with("<!DOCTYPE html>\n"));
    assert!(page.contains("<p>Sessions: 2 &nbsp;|&nbsp; Passed: 1 &nbsp;|&nbsp; Failed: 1 &nbsp;| <strong class=\"crit\">CRITICAL</strong></p>\n"));
    assert!(page.contains(
        "<tr><td>00000000-0000-0000-0000-000000000001</td><td>NoUnhandledException</td><td class=\"fail\">FAIL</td><td>[CRIT] Unhandled exception: Boom: kaboom (seq 0)</td></tr>\n"
    ));
    assert!(page.ends_with("</tbody></table></body></html>\n"));
    assert_eq!(page.matches("<tr><td>").count(), 10);
    let mut again = String::new();
    write_html(&reports, &mut again);
    assert_eq!(page, again);
}

#[test]
fn html_report_of_nothing() {
    let mut page = String::from("prefix");
    write_html(&[], &mut page);
    assert!(page.starts_with("prefix<!DOCTYPE html>"));
    assert!(page.contains("<p>Sessions: 0 &nbsp;|&nbsp; Passed: 0 &nbsp;|&nbsp; Failed: 0</p>\n"));
}

#[test]
fn default_engine_has_no_rules() {
    let engine: OracleEngine<BuiltinRule> = OracleEngine::default();
    assert!(engine.rules().is_empty());
    let engine = engine.with_builtin_rules();
    assert_eq!(engine.rules().len(), 5);
}
