//! Bucket labels, value abstraction, folding and refolding.

use semantx_trace::event::{TraceEvent, TraceEventKind};
use semantx_trace::ids::{CommandId, EventSeq, ScreenId, SessionId};
use semantx_trace::json::{JsonNumber, JsonValue};
use semantx_trace::normalizer::abstraction::{abstract_value, len_bucket, TAG};
use semantx_trace::normalizer::config::NormCfg;
use semantx_trace::normalizer::fold::{normalize, refold, refold_with_report};
use semantx_trace::outcome::Outcome;
use semantx_trace::scenario::{CanonicalAction, Scenario};
use semantx_trace::session::Session;

fn num(n: i64) -> JsonValue {
    if n >= 0 {
        JsonValue::Number(JsonNumber::PosInt(n as u64))
    } else {
        JsonValue::Number(JsonNumber::NegInt(n))
    }
}

fn text(s: &str) -> JsonValue {
    JsonValue::String(s.to_owned())
}

fn obj(entries: Vec<(&str, JsonValue)>) -> JsonValue {
    JsonValue::Object(entries.into_iter().map(|(k, v)| (k.to_owned(), v)).collect())
}

fn field<'a>(v: &'a JsonValue, key: &str) -> &'a JsonValue {
    v.get(key).expect("field present")
}

fn str_of(v: &JsonValue) -> &str {
    v.as_str().expect("a string")
}

fn mentions(v: &JsonValue, needle: &str) -> bool {
    match v {
        JsonValue::String(s) => s.contains(needle),
        JsonValue::Array(items) => items.iter().any(|i| mentions(i, needle)),
        JsonValue::Object(entries) => entries.iter().any(|(k, x)| k.contains(needle) || mentions(x, needle)),
        _ => false,
    }
}

fn cfg() -> NormCfg {
    NormCfg::default()
}

#[test]
fn default_buckets_match_glossary() {
    let cfg = NormCfg::default();
    assert_eq!(cfg.bucket_label(0), "0");
    assert_eq!(cfg.bucket_label(1), "1");
    assert_eq!(cfg.bucket_label(2), "2-10");
    assert_eq!(cfg.bucket_label(10), "2-10");
    assert_eq!(cfg.bucket_label(11), "11-100");
    assert_eq!(cfg.bucket_label(100), "11-100");
    assert_eq!(cfg.bucket_label(101), "101-1000");
    assert_eq!(cfg.bucket_label(1000), "101-1000");
    assert_eq!(cfg.bucket_label(1001), "1001+");
    assert_eq!(cfg.bucket_label(50_000), "1001+");
}

#[test]
fn negatives_are_symmetric() {
    let cfg = NormCfg::default();
    assert_eq!(cfg.bucket_label(-5), "-2-10");
    assert_eq!(cfg.bucket_label(-1), "-1");
}

#[test]
fn label_in_with_custom_bounds() {
    assert_eq!(NormCfg::label_in(&[5], 7), "6+");
    assert_eq!(NormCfg::label_in(&[5], 5), "0-5");
    assert_eq!(NormCfg::label_in(&[5], 3), "0-5");
    assert_eq!(NormCfg::label_in(&[], 3), "1+");
    assert_eq!(NormCfg::label_in(&[0, 50, 5000], 49), "1-50");
    assert_eq!(NormCfg::label_in(&[0, 1, 10], i64::MIN), "-11+");
}

#[test]
fn length_buckets() {
    assert_eq!(len_bucket(0), "0");
    assert_eq!(len_bucket(3), "1-8");
    assert_eq!(len_bucket(10), "9-32");
    assert_eq!(len_bucket(33), "33-128");
    assert_eq!(len_bucket(200), "128+");
}

#[test]
fn numeric_becomes_bucket() {
    let v = abstract_value(&num(42), &cfg());
    assert_eq!(str_of(field(&v, TAG)), "numeric");
    assert_eq!(str_of(field(&v, "bucket")), "11-100");
}

#[test]
fn email_string_classified() {
    let v = abstract_value(&text("alice@example.com"), &cfg());
    assert_eq!(str_of(field(&v, "class")), "email");
}

#[test]
fn guid_string_classified() {
    let v = abstract_value(&text("00000000-0000-0000-0000-000000000000"), &cfg());
    assert_eq!(str_of(field(&v, "class")), "guid");
}

#[test]
fn nested_object_recurses() {
    let v = abstract_value(&obj(vec![("qty", num(7)), ("note", text("hi"))]), &cfg());
    assert_eq!(str_of(field(field(&v, "qty"), "bucket")), "2-10");
    assert_eq!(str_of(field(field(&v, "note"), "class")), "free");
}

#[test]
fn external_object_with_abstract_key_is_not_bypassed() {
    let v = abstract_value(&obj(vec![("_abstract", text("x")), ("email", text("alice@example.com"))]), &cfg());
    assert_ne!(field(&v, "email"), &text("alice@example.com"));
    assert_eq!(str_of(field(field(&v, "email"), "class")), "email");
}

#[test]
fn forged_numeric_tag_with_sensitive_bucket_is_recursed() {
    let v = abstract_value(&obj(vec![("_abstract", text("numeric")), ("bucket", text("alice@example.com"))]), &cfg());
    assert!(!mentions(&v, "alice@example.com"));
    assert_eq!(str_of(field(field(&v, "bucket"), "class")), "email");
}

#[test]
fn genuine_abstractor_output_passes_through() {
    let cfg = cfg();
    let original = abstract_value(&obj(vec![("qty", num(50)), ("name", text("bob"))]), &cfg);
    let again = abstract_value(&original, &cfg);
    assert_eq!(original, again);
}

#[test]
fn idempotent_on_scalars_and_containers() {
    let cfg = cfg();
    let inputs = vec![
        num(0),
        num(123_456),
        num(-5),
        text("user@host.io"),
        JsonValue::Array(vec![num(1), text("two"), obj(vec![("three", num(3))])]),
        obj(vec![("a", obj(vec![("b", JsonValue::Array(vec![num(4), num(5)]))]))]),
        JsonValue::Bool(true),
        JsonValue::Null,
    ];
    for input in inputs {
        let once = abstract_value(&input, &cfg);
        let twice = abstract_value(&once, &cfg);
        assert_eq!(once, twice, "not idempotent for {input:?}");
    }
}

const BASE_MS: i64 = 1_780_000_000_000;

fn at(secs: i64, millis: i64) -> i64 {
    BASE_MS + secs * 1000 + millis
}

fn ev(seq: u64, ts_ms: i64, kind: TraceEventKind) -> TraceEvent {
    TraceEvent {
        seq: EventSeq::new(seq),
        session_id: SessionId::new(1),
        ts_ms,
        ts_sub_ns: 0,
        correlation_id: None,
        domain_entity_id: None,
        kind,
    }
}

fn cmd_with(name: &str, args: JsonValue) -> TraceEventKind {
    TraceEventKind::CommandExecuted {
        command_id: CommandId::new(name),
        args,
        duration_ms: 1,
        outcome: Outcome::Success,
    }
}

fn cmd(name: &str) -> TraceEventKind {
    cmd_with(name, obj(vec![("qty", num(50))]))
}

fn session_of(events: Vec<TraceEvent>) -> Session<TraceEvent> {
    Session::new(SessionId::new(1), events).expect("non-empty")
}

#[test]
fn tracks_screen_and_projects_commands() {
    let session = session_of(vec![
        ev(0, at(0, 0), TraceEventKind::ScreenOpened { screen_id: ScreenId::new("Editor"), params: obj(vec![]) }),
        ev(1, at(1, 0), cmd("Graph47.Recalculate")),
    ]);
    let (scenario, report) = normalize(&session, &NormCfg::default());
    assert_eq!(scenario.actions.len(), 1);
    assert_eq!(scenario.actions[0].screen_id, ScreenId::new("Editor"));
    assert_eq!(scenario.actions[0].command_id, CommandId::new("Graph47.Recalculate"));
    assert_eq!(str_of(field(field(&scenario.actions[0].abstract_args, "qty"), "bucket")), "11-100");
    assert_eq!(report.input_events, 2);
    assert_eq!(report.output_actions, 1);
    assert_eq!(report.dropped_noise, 1);
}

#[test]
fn collapses_burst_but_not_spaced_repeats() {
    let cfg = NormCfg::default();
    let session = session_of(vec![
        ev(0, at(0, 0), cmd("X.Do")),
        ev(1, at(0, 10), cmd("X.Do")),
        ev(2, at(2, 0), cmd("X.Do")),
    ]);
    let (scenario, report) = normalize(&session, &cfg);
    assert_eq!(scenario.actions.len(), 2);
    assert_eq!(report.collapsed_bursts, 1);
}

#[test]
fn out_of_order_timestamps_not_collapsed_as_burst() {
    let cfg = NormCfg::default();
    let session = session_of(vec![ev(0, at(10, 0), cmd("X.Do")), ev(1, at(0, 0), cmd("X.Do"))]);
    let (scenario, report) = normalize(&session, &cfg);
    assert_eq!(scenario.actions.len(), 2, "out-of-order repeat must not be collapsed");
    assert_eq!(report.collapsed_bursts, 0);
}

#[test]
fn counts_session_pause() {
    let session = session_of(vec![ev(0, at(0, 0), cmd("A.Do")), ev(1, at(10, 0), cmd("B.Do"))]);
    let (_s, report) = normalize(&session, &NormCfg::default());
    assert_eq!(report.session_pauses, 1);
}

#[test]
fn refold_collapses_adjacent_duplicates_idempotently() {
    let cfg = NormCfg::default();
    let session = session_of(vec![ev(0, at(0, 0), cmd("X.Do")), ev(1, at(2, 0), cmd("X.Do"))]);
    let (scenario, _r) = normalize(&session, &cfg);
    assert_eq!(scenario.actions.len(), 2);
    let once = refold(&scenario, &cfg);
    assert_eq!(once.actions.len(), 1);
    let twice = refold(&once, &cfg);
    assert_eq!(once, twice);
}

#[test]
fn burst_collapse_spans_intervening_noise_events() {
    let noise = ev(
        1,
        at(0, 10),
        TraceEventKind::ExceptionThrown {
            exception_type: "Interrupt".to_owned(),
            message: "between the burst".to_owned(),
            stack: None,
        },
    );
    let session = session_of(vec![ev(0, at(0, 0), cmd_with("X.Do", obj(vec![]))), noise, ev(2, at(0, 20), cmd_with("X.Do", obj(vec![])))]);
    let (scenario, report) = normalize(&session, &NormCfg::default());
    assert_eq!(scenario.actions.len(), 1, "noise does not break a burst");
    assert_eq!(report.collapsed_bursts, 1);
    assert_eq!(report.dropped_noise, 1);
    assert_eq!(report.input_events, report.output_actions + report.collapsed_bursts + report.dropped_noise);
}

#[test]
fn zero_burst_gap_keeps_every_command() {
    let mut cfg = NormCfg::default();
    cfg.burst_gap_ms = 0;
    let session = session_of(vec![ev(0, at(0, 0), cmd("X.Do")), ev(1, at(0, 1), cmd("X.Do")), ev(2, at(0, 2), cmd("X.Do"))]);
    let (scenario, report) = normalize(&session, &cfg);
    assert_eq!(scenario.actions.len(), 3);
    assert_eq!(report.collapsed_bursts, 0);
}

#[test]
fn shifting_timestamps_changes_nothing() {
    let cfg = NormCfg::default();
    let make = |shift: i64| {
        session_of(vec![
            ev(0, at(0, 0) + shift, cmd("X.Do")),
            ev(1, at(0, 10) + shift, cmd("X.Do")),
            ev(2, at(9, 0) + shift, cmd("Y.Do")),
        ])
    };
    let (a, ra) = normalize(&make(0), &cfg);
    let (b, rb) = normalize(&make(-123_456), &cfg);
    assert_eq!(a, b);
    assert_eq!(ra, rb);
}

#[test]
fn normalized_arguments_are_fixed_points() {
    let cfg = NormCfg::default();
    let session = session_of(vec![ev(0, at(0, 0), cmd_with("X.Do", obj(vec![("mail", text("a@b.io")), ("n", num(-70))])))]);
    let (scenario, _) = normalize(&session, &cfg);
    let args = &scenario.actions[0].abstract_args;
    assert_eq!(&abstract_value(args, &cfg), args);
}

fn session_with_args(args: JsonValue) -> Session<TraceEvent> {
    Session::new(
        SessionId::new(9),
        vec![TraceEvent {
            seq: EventSeq::new(0),
            session_id: SessionId::new(9),
            ts_ms: BASE_MS,
            ts_sub_ns: 0,
            correlation_id: None,
            domain_entity_id: None,
            kind: cmd_with("Graph47.Recalculate", args),
        }],
    )
    .expect("non-empty")
}

#[test]
fn override_applies_to_the_named_field() {
    let mut cfg = NormCfg::default();
    cfg.per_field_bucket_bounds.insert("qty".to_owned(), vec![5]);
    let session = session_with_args(obj(vec![("qty", num(7)), ("other", num(7))]));
    let (scenario, _report) = normalize(&session, &cfg);
    let args = &scenario.actions[0].abstract_args;
    assert_eq!(str_of(field(field(args, "qty"), "bucket")), "6+");
    assert_eq!(str_of(field(field(args, "other"), "bucket")), "2-10");
}

#[test]
fn override_propagates_into_nested_values_under_the_field() {
    let mut cfg = NormCfg::default();
    cfg.per_field_bucket_bounds.insert("qty".to_owned(), vec![5]);
    let session = session_with_args(obj(vec![(
        "qty",
        obj(vec![("amount", num(7)), ("batch", JsonValue::Array(vec![num(7)]))]),
    )]));
    let (scenario, _report) = normalize(&session, &cfg);
    let qty = field(&scenario.actions[0].abstract_args, "qty");
    assert_eq!(str_of(field(field(qty, "amount"), "bucket")), "6+");
    match field(qty, "batch") {
        JsonValue::Array(items) => assert_eq!(str_of(field(&items[0], "bucket")), "6+"),
        other => panic!("expected an array, got {other:?}"),
    }
}

#[test]
fn override_for_absent_field_is_a_no_op() {
    let baseline = NormCfg::default();
    let mut cfg = NormCfg::default();
    cfg.per_field_bucket_bounds.insert("absent".to_owned(), vec![1, 2, 3]);
    let session = session_with_args(obj(vec![("qty", num(4321)), ("other", num(12))]));
    assert_eq!(normalize(&session, &baseline), normalize(&session, &cfg));
}

fn action(name: &str) -> CanonicalAction {
    CanonicalAction { screen_id: ScreenId::new("Editor"), command_id: CommandId::new(name), abstract_args: obj(vec![]) }
}

#[test]
fn refold_with_report_accounts_for_every_collapsed_action() {
    let cfg = NormCfg::default();
    let scenario = Scenario::new(vec![
        action("X.Do"),
        action("X.Do"),
        action("Y.Do"),
        action("Y.Do"),
        action("Y.Do"),
        action("X.Do"),
    ]);
    let (folded, report) = refold_with_report(&scenario, &cfg);
    assert_eq!(folded, refold(&scenario, &cfg));
    assert_eq!(report.input_actions, 6);
    assert_eq!(report.output_actions, 3);
    assert_eq!(report.collapsed_adjacent, 3);
}

#[test]
fn class_stable_leaf_mutation_changes_nothing() {
    let cfg = NormCfg::default();
    let args = |name: &str, qty: i64, mail: &str| {
        obj(vec![
            ("name", text(name)),
            ("qty", num(qty)),
            ("tags", JsonValue::Array(vec![text(mail), JsonValue::Bool(true), JsonValue::Null])),
        ])
    };
    let build = |name: &str, qty: i64, mail: &str| {
        session_of(vec![
            ev(0, at(0, 0), TraceEventKind::ScreenOpened { screen_id: ScreenId::new("Editor"), params: obj(vec![]) }),
            ev(1, at(1, 0), cmd_with("Form.Save", args(name, qty, mail))),
            ev(2, at(1, 10), cmd_with("Form.Save", args(name, qty, mail))),
        ])
    };
    let original = normalize(&build("alice", 50, "x@y.io"), &cfg);
    let mutated = normalize(&build("bmjdf", 51, "q@r.de"), &cfg);
    assert_eq!(original, mutated);
    let other_bucket = normalize(&build("alice", 500, "x@y.io"), &cfg);
    assert_ne!(original.0, other_bucket.0);
}

fn ev_ns(seq: u64, ts_ms: i64, ts_sub_ns: u32, kind: TraceEventKind) -> TraceEvent {
    TraceEvent { ts_sub_ns, ..ev(seq, ts_ms, kind) }
}

#[test]
fn gaps_count_whole_milliseconds_truncated() {
    let mut cfg = NormCfg::default();
    cfg.burst_gap_ms = 1;
    // 0.9 ms and 1.1 ms past a whole millisecond: 0.2 ms apart, 0 whole ms.
    let close = session_of(vec![
        ev_ns(0, BASE_MS, 900_000, cmd("X.Do")),
        ev_ns(1, BASE_MS + 1, 100_000, cmd("X.Do")),
    ]);
    let (scenario, report) = normalize(&close, &cfg);
    assert_eq!(scenario.actions.len(), 1);
    assert_eq!(report.collapsed_bursts, 1);
    // 0.5 ms backwards truncates to 0 and still counts as a burst.
    let back = session_of(vec![
        ev_ns(0, BASE_MS, 600_000, cmd("X.Do")),
        ev_ns(1, BASE_MS, 100_000, cmd("X.Do")),
    ]);
    assert_eq!(normalize(&back, &cfg).1.collapsed_bursts, 1);
    // 1.9 ms apart is one whole millisecond: not within a 1 ms gap.
    let apart = session_of(vec![
        ev_ns(0, BASE_MS, 0, cmd("X.Do")),
        ev_ns(1, BASE_MS + 1, 900_000, cmd("X.Do")),
    ]);
    assert_eq!(normalize(&apart, &cfg).1.collapsed_bursts, 0);
    // An idle gap of 5000.9 ms is 5000 whole ms: no pause at a 5000 ms gap.
    let idle = session_of(vec![
        ev_ns(0, BASE_MS, 0, cmd("A.Do")),
        ev_ns(1, BASE_MS + 5000, 900_000, cmd("B.Do")),
    ]);
    assert_eq!(normalize(&idle, &NormCfg::default()).1.session_pauses, 0);
}
