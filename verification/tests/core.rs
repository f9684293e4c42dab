//! Identifiers, outcomes, value policies, sessions and the replay stub.

use semantx_trace::ids::{
    uuid_to_string, CommandId, CorrelationId, DomainEntityId, EventSeq, FieldId, ScreenId, SessionId,
};
use semantx_trace::json::JsonValue;
use semantx_trace::outcome::Outcome;
use semantx_trace::policy::ValuePolicy;
use semantx_trace::replay::placeholder;
use semantx_trace::session::{Session, SessionError};

#[test]
fn success_is_success_and_not_failure() {
    let o = Outcome::Success;
    assert!(o.is_success());
    assert!(!o.is_failure());
}

#[test]
fn timed_out_is_failure_not_success() {
    let o = Outcome::TimedOut;
    assert!(!o.is_success());
    assert!(o.is_failure());
}

#[test]
fn cancelled_and_failed_are_failures() {
    assert!(Outcome::Cancelled.is_failure());
    let f = Outcome::Failure { message: "boom".to_owned() };
    assert!(f.is_failure());
    assert!(!f.is_success());
}

#[test]
fn raw_is_raw() {
    let v = ValuePolicy::Raw {
        value: JsonValue::Object(vec![(
            "x".to_owned(),
            JsonValue::Number(semantx_trace::json::JsonNumber::PosInt(1)),
        )]),
    };
    assert!(v.is_raw());
}

#[test]
fn default_masked_is_three_stars_and_not_raw() {
    let v = ValuePolicy::default_masked();
    assert!(!v.is_raw());
    match v {
        ValuePolicy::Masked { display } => assert_eq!(display, "***"),
        _ => panic!("expected a masked value"),
    }
}

#[test]
fn empty_session_rejected() {
    let id = SessionId::random();
    let result: Result<Session<()>, _> = Session::new(id, Vec::new());
    assert_eq!(result, Err(SessionError::Empty));
}

#[test]
fn non_empty_session_preserves_events_and_id() {
    let id = SessionId::random();
    let session = Session::new(id, vec![1_u32, 2, 3]).expect("non-empty");
    assert_eq!(session.id(), &id);
    assert_eq!(session.events(), &[1, 2, 3]);
    assert_eq!(session.len(), 3);
    assert!(!session.is_empty());
}

#[test]
fn session_into_parts_returns_what_was_given() {
    let id = SessionId::new(7);
    let session = Session::new(id, vec!['a', 'b']).expect("non-empty");
    let (back_id, events) = session.into_parts();
    assert_eq!(back_id, id);
    assert_eq!(events, vec!['a', 'b']);
}

#[test]
fn session_error_text() {
    assert_eq!(SessionError::Empty.to_string(), "a session must contain at least one event");
}

#[test]
fn returns_placeholder_string() {
    assert_eq!(placeholder(), "trace-replay-planner (S0 placeholder)");
}

#[test]
fn session_id_formats_as_hyphenated_lowercase_uuid() {
    let id = SessionId::new(0x0123_4567_89ab_cdef_0123_4567_89ab_cdef);
    assert_eq!(id.to_string(), "01234567-89ab-cdef-0123-456789abcdef");
    assert_eq!(SessionId::new(0).to_string(), "00000000-0000-0000-0000-000000000000");
    assert_eq!(uuid_to_string(1), "00000000-0000-0000-0000-000000000001");
    assert_eq!(id.as_u128(), 0x0123_4567_89ab_cdef_0123_4567_89ab_cdef);
}

#[test]
fn random_ids_are_version_four() {
    let id = SessionId::random();
    let text = id.to_string();
    assert_eq!(text.len(), 36);
    assert_eq!(&text[14..15], "4");
    let variant = text.as_bytes()[19];
    assert!(matches!(variant, b'8' | b'9' | b'a' | b'b'));
    let c = CorrelationId::random();
    assert_eq!(&c.to_string()[14..15], "4");
    assert_ne!(SessionId::random(), SessionId::random());
}

#[test]
fn event_seq_counts_and_saturates() {
    let s = EventSeq::new(41);
    assert_eq!(s.get(), 41);
    assert_eq!(s.next().get(), 42);
    assert_eq!(EventSeq::zero().get(), 0);
    assert_eq!(EventSeq::new(u64::MAX).next().get(), u64::MAX);
    assert_eq!(EventSeq::new(1234).to_string(), "1234");
}

#[test]
fn string_ids_keep_their_text() {
    assert_eq!(CommandId::new("Graph47.Recalculate").as_str(), "Graph47.Recalculate");
    assert_eq!(ScreenId::new("Editor").as_str(), "Editor");
    assert_eq!(FieldId::new("Customer.Name").as_str(), "Customer.Name");
    assert_eq!(DomainEntityId::new("order-1").as_str(), "order-1");
    assert!(CommandId::new("A").same(&CommandId::new("A")));
    assert!(!ScreenId::new("A").same(&ScreenId::new("B")));
}
