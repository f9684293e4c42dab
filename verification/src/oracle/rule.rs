//! Core oracle types: schedules, severities, violations, results, and the
//! [`Rule`] trait that the engine runs.

use vstd::prelude::*;

use crate::event::{event_same, events_same, TraceEvent};
use crate::ids::{EventSeq, SessionId};
use crate::session::Session;

verus! {

/// When the engine calls a rule.
#[derive(Clone, Copy, Debug, PartialEq, Eq, Structural)]
pub enum OracleSchedule {
    /// Called once for every event in stream order.
    PerEvent,
    /// Called once after all events of a session.
    PerScenario,
    /// Called once after the very last event of the session.
    EndOfSession,
    /// Called with a rolling window of events within `window_ms`.
    WindowBased {
        /// Window width in milliseconds.
        window_ms: u64,
    },
}

/// Severity of an oracle violation, from least to most severe.
#[derive(Clone, Copy, Debug, PartialEq, Eq, PartialOrd, Ord, Hash, Structural)]
pub enum Severity {
    /// Potential issue; investigation recommended.
    Warning,
    /// Definite violation that blocks a scenario from being replayed.
    Error,
    /// The session is unsafe to process further.
    Critical,
}

/// Rank of a severity: `Warning < Error < Critical`.
pub open spec fn severity_rank(s: Severity) -> int {
    match s {
        Severity::Warning => 0,
        Severity::Error => 1,
        Severity::Critical => 2,
    }
}

impl Severity {
    /// Rank of this severity (`Warning` 0, `Error` 1, `Critical` 2).
    pub fn rank(&self) -> (r: u8)
        ensures
            r == severity_rank(*self),
    {
        match self {
            Severity::Warning => 0,
            Severity::Error => 1,
            Severity::Critical => 2,
        }
    }
}

/// A single rule violation, with its evidence.
#[derive(Debug)]
pub struct OracleViolation {
    /// Name of the rule that produced it.
    pub rule: String,
    /// Severity level.
    pub severity: Severity,
    /// Human-readable description.
    pub message: String,
    /// Sequence numbers of the offending events.
    pub evidence: Vec<EventSeq>,
}

/// Model of a violation.
pub struct ViolationModel {
    pub rule: Seq<char>,
    pub severity: Severity,
    pub message: Seq<char>,
    pub evidence: Seq<EventSeq>,
}

impl OracleViolation {
    /// The model of this violation.
    pub open spec fn model(self) -> ViolationModel {
        ViolationModel {
            rule: self.rule@,
            severity: self.severity,
            message: self.message@,
            evidence: self.evidence@,
        }
    }
}

/// Element-wise model of violations.
pub open spec fn violations_model(s: Seq<OracleViolation>) -> Seq<ViolationModel> {
    s.map_values(|v: OracleViolation| v.model())
}

/// The output of evaluating one rule against one session.
#[derive(Debug)]
pub struct OracleResult {
    /// Name of the evaluated rule.
    pub rule: String,
    /// `true` iff no violations were found.
    pub passed: bool,
    /// All violations found (empty when `passed`).
    pub violations: Vec<OracleViolation>,
}

/// Model of a result.
pub struct ResultModel {
    pub rule: Seq<char>,
    pub passed: bool,
    pub violations: Seq<ViolationModel>,
}

impl OracleResult {
    /// The model of this result.
    pub open spec fn model(self) -> ResultModel {
        ResultModel {
            rule: self.rule@,
            passed: self.passed,
            violations: violations_model(self.violations@),
        }
    }

    /// A passing result for the given rule.
    pub fn pass(rule: &str) -> (r: Self)
        ensures
            r.model() == pass_model(rule@),
    {
        let r = OracleResult { rule: rule.to_owned(), passed: true, violations: Vec::new() };
        assert(r.model().violations =~= Seq::<ViolationModel>::empty());
        r
    }

    /// A result from a (possibly empty) violation list: passed exactly
    /// when there are no violations.
    pub fn fail(rule: &str, violations: Vec<OracleViolation>) -> (r: Self)
        ensures
            r.model() == fail_model(rule@, violations_model(violations@)),
    {
        let passed = violations.len() == 0;
        OracleResult { rule: rule.to_owned(), passed, violations }
    }
}

/// The passing result of `rule`.
pub open spec fn pass_model(rule: Seq<char>) -> ResultModel {
    ResultModel { rule, passed: true, violations: Seq::empty() }
}

/// The result of `rule` holding `violations`: passed iff there are none.
pub open spec fn fail_model(rule: Seq<char>, violations: Seq<ViolationModel>) -> ResultModel {
    ResultModel { rule, passed: violations.len() == 0, violations }
}

/// A rule the engine can run: a domain invariant judging a session.
///
/// Each rule states, through `spec_evaluate`, the result it gives for a
/// session (its id and its events); the built-in rules of this crate
/// prove their evaluations against it.
pub trait Rule {
    /// Stable name, used in reports and configuration.
    spec fn spec_name(&self) -> Seq<char>;

    /// Scheduling hint.
    spec fn spec_schedule(&self) -> OracleSchedule;

    /// The result for a session with this id and these events.
    spec fn spec_evaluate(&self, id: SessionId, events: Seq<TraceEvent>) -> ResultModel;

    /// A rule judges events by their content: two sessions whose events
    /// have the same content get the same result.
    proof fn lemma_judges_content(&self, id: SessionId, a: Seq<TraceEvent>, b: Seq<TraceEvent>)
        requires
            events_same(a, b),
        ensures
            self.spec_evaluate(id, a) == self.spec_evaluate(id, b),
    ;

    /// Stable name, used in reports and configuration.
    fn name(&self) -> (r: String)
        ensures
            r@ == self.spec_name(),
    ;

    /// Scheduling hint for the engine.
    fn schedule(&self) -> (r: OracleSchedule)
        ensures
            r == self.spec_schedule(),
    ;

    /// Evaluate this rule against a full session.
    fn evaluate(&self, session: &Session<TraceEvent>) -> (r: OracleResult)
        ensures
            r.model() == self.spec_evaluate(session.spec_id(), session.spec_events()),
    ;
}

/// The violations `f` finds in the first `n` events, one event at a time,
/// in order.
pub open spec fn per_event(
    events: Seq<TraceEvent>,
    f: spec_fn(TraceEvent) -> Option<ViolationModel>,
    n: nat,
) -> Seq<ViolationModel>
    decreases n,
{
    if n == 0 || n > events.len() {
        Seq::empty()
    } else {
        let p = per_event(events, f, (n - 1) as nat);
        match f(events[n - 1]) {
            Some(v) => p.push(v),
            None => p,
        }
    }
}

/// The violations `f` finds in the first `n` consecutive pairs
/// `(events[i], events[i + 1])`, in order.
pub open spec fn per_pair(
    events: Seq<TraceEvent>,
    f: spec_fn(TraceEvent, TraceEvent) -> Option<ViolationModel>,
    n: nat,
) -> Seq<ViolationModel>
    decreases n,
{
    if n == 0 || n + 1 > events.len() {
        Seq::empty()
    } else {
        let p = per_pair(events, f, (n - 1) as nat);
        match f(events[n - 1], events[n as int]) {
            Some(v) => p.push(v),
            None => p,
        }
    }
}

/// The number of consecutive pairs in a sequence of events.
pub open spec fn pair_count(events: Seq<TraceEvent>) -> nat {
    if events.len() == 0 {
        0
    } else {
        (events.len() - 1) as nat
    }
}

/// `f` gives the same answer on any two events with the same content.
pub open spec fn reads_content(f: spec_fn(TraceEvent) -> Option<ViolationModel>) -> bool {
    forall|x: TraceEvent, y: TraceEvent| event_same(x, y) ==> #[trigger] f(x) == #[trigger] f(y)
}

/// `f` gives the same answer on any two pairs of events with the same content.
pub open spec fn pair_reads_content(f: spec_fn(TraceEvent, TraceEvent) -> Option<ViolationModel>) -> bool {
    forall|x: TraceEvent, y: TraceEvent, u: TraceEvent, v: TraceEvent|
        event_same(x, u) && event_same(y, v) ==> #[trigger] f(x, y) == #[trigger] f(u, v)
}

/// Per-event checking of content-reading checks reads content.
pub proof fn lemma_per_event_content(
    a: Seq<TraceEvent>,
    b: Seq<TraceEvent>,
    f: spec_fn(TraceEvent) -> Option<ViolationModel>,
    n: nat,
)
    requires
        events_same(a, b),
        reads_content(f),
    ensures
        per_event(a, f, n) == per_event(b, f, n),
    decreases n,
{
    if n > 0 && n <= a.len() {
        lemma_per_event_content(a, b, f, (n - 1) as nat);
        assert(event_same(a[n - 1], b[n - 1]));
        assert(f(a[n - 1]) == f(b[n - 1]));
    }
}

/// Per-pair checking of content-reading checks reads content.
pub proof fn lemma_per_pair_content(
    a: Seq<TraceEvent>,
    b: Seq<TraceEvent>,
    f: spec_fn(TraceEvent, TraceEvent) -> Option<ViolationModel>,
    n: nat,
)
    requires
        events_same(a, b),
        pair_reads_content(f),
    ensures
        per_pair(a, f, n) == per_pair(b, f, n),
    decreases n,
{
    if n > 0 && n + 1 <= a.len() {
        lemma_per_pair_content(a, b, f, (n - 1) as nat);
        assert(event_same(a[n - 1], b[n - 1]));
        assert(event_same(a[n as int], b[n as int]));
        assert(f(a[n - 1], a[n as int]) == f(b[n - 1], b[n as int]));
    }
}

/// Each pair among the first `n` for which `f` gives a violation has that
/// violation listed.
pub proof fn lemma_per_pair_lists(
    events: Seq<TraceEvent>,
    f: spec_fn(TraceEvent, TraceEvent) -> Option<ViolationModel>,
    n: nat,
    i: int,
)
    requires
        0 <= i < n,
        n + 1 <= events.len(),
        f(events[i], events[i + 1]) is Some,
    ensures
        per_pair(events, f, n).contains(f(events[i], events[i + 1])->Some_0),
    decreases n,
{
    let p = per_pair(events, f, (n - 1) as nat);
    if i < n - 1 {
        lemma_per_pair_lists(events, f, (n - 1) as nat, i);
        let k = choose|k: int| 0 <= k < p.len() && p[k] == f(events[i], events[i + 1])->Some_0;
        if let Some(v) = f(events[n - 1], events[n as int]) {
            assert(p.push(v)[k] == p[k]);
        }
    } else {
        assert(i == n - 1);
        let v = f(events[i], events[i + 1])->Some_0;
        assert(p.push(v)[p.len() as int] == v);
    }
}

/// With no pair among the first `n` giving a violation, none is listed.
pub proof fn lemma_per_pair_none(
    events: Seq<TraceEvent>,
    f: spec_fn(TraceEvent, TraceEvent) -> Option<ViolationModel>,
    n: nat,
)
    requires
        forall|i: int| 0 <= i < n && i + 1 < events.len() ==> (#[trigger] f(events[i], events[i + 1])) is None,
    ensures
        per_pair(events, f, n).len() == 0,
    decreases n,
{
    if n > 0 && n + 1 <= events.len() {
        lemma_per_pair_none(events, f, (n - 1) as nat);
        assert(f(events[n - 1], events[(n - 1) + 1]) is None);
    }
}

} // verus!
