//! Built-in oracle rules, and one example domain rule.

use vstd::prelude::*;

use crate::event::{event_same, events_same, TraceEvent, TraceEventKind};
use crate::ids::{CommandId, EventSeq, ScreenId, SessionId};
use crate::oracle::rule::{
    fail_model, lemma_per_event_content, lemma_per_pair_content, lemma_per_pair_lists, lemma_per_pair_none,
    pair_count, per_event, per_pair,
    violations_model, OracleResult, OracleSchedule,
    OracleViolation, ResultModel, Rule, Severity, ViolationModel,
};
use crate::session::Session;
use crate::text::{contains_text, ends_with_text, nat_text, push_nat, str_contains, str_ends_with};

verus! {

fn make_violation(rule: &str, severity: Severity, message: String, evidence: Vec<EventSeq>) -> (r:
    OracleViolation)
    ensures
        r.model() == (ViolationModel {
            rule: rule@,
            severity,
            message: message@,
            evidence: evidence@,
        }),
{
    OracleViolation { rule: rule.to_owned(), severity, message, evidence }
}

fn one_seq(a: EventSeq) -> (r: Vec<EventSeq>)
    ensures
        r@ == seq![a],
{
    let mut v: Vec<EventSeq> = Vec::new();
    v.push(a);
    assert(v@ =~= seq![a]);
    v
}

fn two_seqs(a: EventSeq, b: EventSeq) -> (r: Vec<EventSeq>)
    ensures
        r@ == seq![a, b],
{
    let mut v: Vec<EventSeq> = Vec::new();
    v.push(a);
    v.push(b);
    assert(v@ =~= seq![a, b]);
    v
}

// ---------------------------------------------------------------------------
// NoUnhandledException
// ---------------------------------------------------------------------------

/// Fails for every exception event in the session (each one is a
/// `Critical` violation: the application's error handling let an
/// exception escape the command boundary).
#[derive(Clone, Copy, Debug, Default)]
pub struct NoUnhandledException;

/// The violation an exception event produces, if any.
pub open spec fn unhandled_exception_violation(e: TraceEvent) -> Option<ViolationModel> {
    match e.kind {
        TraceEventKind::ExceptionThrown { exception_type, message, .. } => Some(
            ViolationModel {
                rule: "NoUnhandledException"@,
                severity: Severity::Critical,
                message: "Unhandled exception: "@ + exception_type@ + ": "@ + message@,
                evidence: seq![e.seq],
            },
        ),
        _ => None,
    }
}

/// Violations among the first `n` events.
pub open spec fn unhandled_exception_violations(events: Seq<TraceEvent>, n: nat) -> Seq<ViolationModel> {
    per_event(events, |e: TraceEvent| unhandled_exception_violation(e), n)
}

impl Rule for NoUnhandledException {
    open spec fn spec_name(&self) -> Seq<char> {
        "NoUnhandledException"@
    }

    open spec fn spec_schedule(&self) -> OracleSchedule {
        OracleSchedule::PerScenario
    }

    open spec fn spec_evaluate(&self, id: SessionId, events: Seq<TraceEvent>) -> ResultModel {
        fail_model("NoUnhandledException"@, unhandled_exception_violations(events, events.len()))
    }

    proof fn lemma_judges_content(&self, id: SessionId, a: Seq<TraceEvent>, b: Seq<TraceEvent>) {
        let f = |e: TraceEvent| unhandled_exception_violation(e);
        assert forall|x: TraceEvent, y: TraceEvent| event_same(x, y) implies #[trigger] f(x) == #[trigger] f(y) by {}
        lemma_per_event_content(a, b, f, a.len());
    }

    fn name(&self) -> (r: String) {
        "NoUnhandledException".to_owned()
    }

    fn schedule(&self) -> (r: OracleSchedule) {
        OracleSchedule::PerScenario
    }

    fn evaluate(&self, session: &Session<TraceEvent>) -> (r: OracleResult) {
        let events = session.events();
        let mut out: Vec<OracleViolation> = Vec::new();
        let mut i: usize = 0;
        while i < events.len()
            invariant
                events@ == session.spec_events(),
                i <= events@.len(),
                violations_model(out@) == unhandled_exception_violations(events@, i as nat),
            decreases events@.len() - i,
        {
            let ev = &events[i];
            match &ev.kind {
                TraceEventKind::ExceptionThrown { exception_type, message, .. } => {
                    let mut m = String::new();
                    m.append("Unhandled exception: ");
                    m.append(exception_type.as_str());
                    m.append(": ");
                    m.append(message.as_str());
                    assert(m@ =~= "Unhandled exception: "@ + exception_type@ + ": "@ + message@);
                    let v = make_violation("NoUnhandledException", Severity::Critical, m, one_seq(ev.seq));
                    let ghost before = out@;
                    out.push(v);
                    assert(violations_model(out@) =~= violations_model(before).push(v.model()));
                },
                _ => {},
            }
            i += 1;
        }
        OracleResult::fail("NoUnhandledException", out)
    }
}

// ---------------------------------------------------------------------------
// NoErrorModalAfterCommand
// ---------------------------------------------------------------------------

/// Fails when a screen whose id contains `Error` or `Modal` opens as the
/// very next event after a command.
#[derive(Clone, Copy, Debug, Default)]
pub struct NoErrorModalAfterCommand;

/// The violation a consecutive pair produces, if any.
pub open spec fn error_modal_violation(prev: TraceEvent, next: TraceEvent) -> Option<ViolationModel> {
    match (prev.kind, next.kind) {
        (TraceEventKind::CommandExecuted { .. }, TraceEventKind::ScreenOpened { screen_id, .. }) => {
            if contains_text(screen_id@, "Error"@) || contains_text(screen_id@, "Modal"@) {
                Some(
                    ViolationModel {
                        rule: "NoErrorModalAfterCommand"@,
                        severity: Severity::Error,
                        message: "Error/Modal screen '"@ + screen_id@ + "' opened after command (seq "@
                            + nat_text(prev.seq.0 as nat) + ")"@,
                        evidence: seq![prev.seq, next.seq],
                    },
                )
            } else {
                None
            }
        },
        _ => None,
    }
}

/// Violations among the first `n` consecutive pairs.
pub open spec fn error_modal_violations(events: Seq<TraceEvent>, n: nat) -> Seq<ViolationModel> {
    per_pair(events, |p: TraceEvent, q: TraceEvent| error_modal_violation(p, q), n)
}

impl Rule for NoErrorModalAfterCommand {
    open spec fn spec_name(&self) -> Seq<char> {
        "NoErrorModalAfterCommand"@
    }

    open spec fn spec_schedule(&self) -> OracleSchedule {
        OracleSchedule::PerScenario
    }

    open spec fn spec_evaluate(&self, id: SessionId, events: Seq<TraceEvent>) -> ResultModel {
        fail_model("NoErrorModalAfterCommand"@, error_modal_violations(events, pair_count(events)))
    }

    proof fn lemma_judges_content(&self, id: SessionId, a: Seq<TraceEvent>, b: Seq<TraceEvent>) {
        let f = |p: TraceEvent, q: TraceEvent| error_modal_violation(p, q);
        assert forall|x: TraceEvent, y: TraceEvent, u: TraceEvent, v: TraceEvent|
            event_same(x, u) && event_same(y, v) implies #[trigger] f(x, y) == #[trigger] f(u, v) by {}
        lemma_per_pair_content(a, b, f, pair_count(a));
    }

    fn name(&self) -> (r: String) {
        "NoErrorModalAfterCommand".to_owned()
    }

    fn schedule(&self) -> (r: OracleSchedule) {
        OracleSchedule::PerScenario
    }

    fn evaluate(&self, session: &Session<TraceEvent>) -> (r: OracleResult) {
        let events = session.events();
        let mut out: Vec<OracleViolation> = Vec::new();
        let n = events.len();
        let mut i: usize = 0;
        while i < n - 1
            invariant
                events@ == session.spec_events(),
                n == events@.len(),
                n > 0,
                i <= n - 1,
                violations_model(out@) == error_modal_violations(events@, i as nat),
            decreases events@.len() - i,
        {
            let prev = &events[i];
            let next = &events[i + 1];
            match (&prev.kind, &next.kind) {
                (TraceEventKind::CommandExecuted { .. }, TraceEventKind::ScreenOpened { screen_id, .. }) => {
                    let id = screen_id.as_str();
                    if str_contains(id, "Error") || str_contains(id, "Modal") {
                        let mut m = String::new();
                        m.append("Error/Modal screen '");
                        m.append(id);
                        m.append("' opened after command (seq ");
                        push_nat(&mut m, prev.seq.0);
                        m.append(")");
                        assert(m@ =~= "Error/Modal screen '"@ + screen_id@
                            + "' opened after command (seq "@ + nat_text(prev.seq.0 as nat) + ")"@);
                        let v = make_violation(
                            "NoErrorModalAfterCommand",
                            Severity::Error,
                            m,
                            two_seqs(prev.seq, next.seq),
                        );
                        let ghost before = out@;
                        out.push(v);
                        assert(violations_model(out@) =~= violations_model(before).push(v.model()));
                    }
                },
                _ => {},
            }
            i += 1;
        }
        OracleResult::fail("NoErrorModalAfterCommand", out)
    }
}

/// The event opens a screen whose id contains `Error` or `Modal`.
pub open spec fn opens_error_or_modal(e: TraceEvent) -> bool {
    match e.kind {
        TraceEventKind::ScreenOpened { screen_id, .. } => contains_text(screen_id@, "Error"@) || contains_text(
            screen_id@,
            "Modal"@,
        ),
        _ => false,
    }
}

/// A command, whatever its outcome, followed at once by a screen whose id
/// contains `Error` or `Modal` fails the rule: the result lists an `Error`
/// violation citing the two events. A session with no such pair passes.
pub proof fn error_modal_after_any_command_fails(
    rule: NoErrorModalAfterCommand,
    id: SessionId,
    events: Seq<TraceEvent>,
)
    ensures
        forall|i: int|
            0 <= i && i + 1 < events.len() && (#[trigger] events[i]).kind is CommandExecuted
                && opens_error_or_modal(events[i + 1]) ==> exists|k: int|
                0 <= k < rule.spec_evaluate(id, events).violations.len() && (#[trigger] rule.spec_evaluate(
                    id,
                    events,
                ).violations[k]).severity == Severity::Error && rule.spec_evaluate(id, events).violations[k].evidence
                    == seq![events[i].seq, events[i + 1].seq],
        rule.spec_evaluate(id, events).passed <==> !exists|i: int|
            0 <= i && i + 1 < events.len() && (#[trigger] events[i]).kind is CommandExecuted
                && opens_error_or_modal(events[i + 1]),
{
    let f = |p: TraceEvent, q: TraceEvent| error_modal_violation(p, q);
    let n = pair_count(events);
    assert forall|i: int|
        0 <= i && i + 1 < events.len() && (#[trigger] events[i]).kind is CommandExecuted && opens_error_or_modal(
            events[i + 1],
        ) implies exists|k: int|
        0 <= k < rule.spec_evaluate(id, events).violations.len() && (#[trigger] rule.spec_evaluate(
            id,
            events,
        ).violations[k]).severity == Severity::Error && rule.spec_evaluate(id, events).violations[k].evidence
            == seq![events[i].seq, events[i + 1].seq] by {
        assert(f(events[i], events[i + 1]) is Some);
        lemma_per_pair_lists(events, f, n, i);
        let v = f(events[i], events[i + 1])->Some_0;
        let vs = per_pair(events, f, n);
        let k = choose|k: int| 0 <= k < vs.len() && vs[k] == v;
        assert(vs =~= rule.spec_evaluate(id, events).violations);
        assert(rule.spec_evaluate(id, events).violations[k] == v);
    }
    if !exists|i: int|
        0 <= i && i + 1 < events.len() && (#[trigger] events[i]).kind is CommandExecuted && opens_error_or_modal(
            events[i + 1],
        ) {
        assert forall|i: int| 0 <= i < n && i + 1 < events.len() implies (#[trigger] f(events[i], events[i + 1])) is None by {
            if f(events[i], events[i + 1]) is Some {
                assert(events[i].kind is CommandExecuted && opens_error_or_modal(events[i + 1]));
            }
        }
        lemma_per_pair_none(events, f, n);
    } else {
        let i = choose|i: int|
            0 <= i && i + 1 < events.len() && (#[trigger] events[i]).kind is CommandExecuted && opens_error_or_modal(
                events[i + 1],
            );
        assert(f(events[i], events[i + 1]) is Some);
        lemma_per_pair_lists(events, f, n, i);
    }
}

// ---------------------------------------------------------------------------
// CommandMustSucceed
// ---------------------------------------------------------------------------

/// Fails for every tracked command that finishes with a non-success
/// outcome.
#[derive(Clone, Debug)]
pub struct CommandMustSucceed {
    /// The commands that must always succeed (each listed once).
    pub command_ids: Vec<CommandId>,
}

/// The texts of a list of command ids.
pub open spec fn command_texts(ids: Seq<CommandId>) -> Seq<Seq<char>> {
    ids.map_values(|c: CommandId| c@)
}

/// The violation an event produces against the tracked `ids`, if any.
pub open spec fn command_failure_violation(ids: Seq<Seq<char>>, e: TraceEvent) -> Option<ViolationModel> {
    match e.kind {
        TraceEventKind::CommandExecuted { command_id, outcome, .. } => {
            if ids.contains(command_id@) && !(outcome is Success) {
                Some(
                    ViolationModel {
                        rule: "CommandMustSucceed"@,
                        severity: Severity::Error,
                        message: "Command '"@ + command_id@ + "' did not succeed (seq "@ + nat_text(
                            e.seq.0 as nat,
                        ) + ")"@,
                        evidence: seq![e.seq],
                    },
                )
            } else {
                None
            }
        },
        _ => None,
    }
}

/// Violations among the first `n` events.
pub open spec fn command_failure_violations(ids: Seq<Seq<char>>, events: Seq<TraceEvent>, n: nat) -> Seq<
    ViolationModel,
> {
    per_event(events, |e: TraceEvent| command_failure_violation(ids, e), n)
}

fn list_contains(ids: &Vec<CommandId>, id: &CommandId) -> (r: bool)
    ensures
        r == command_texts(ids@).contains(id@),
{
    let mut i: usize = 0;
    while i < ids.len()
        invariant
            i <= ids@.len(),
            forall|j: int| 0 <= j < i ==> ids@[j]@ != id@,
        decreases ids@.len() - i,
    {
        if ids[i].same(id) {
            assert(command_texts(ids@)[i as int] == id@);
            return true;
        }
        i += 1;
    }
    proof {
        if command_texts(ids@).contains(id@) {
            let k = choose|k: int| 0 <= k < command_texts(ids@).len() && command_texts(ids@)[k] == id@;
            assert(ids@[k]@ == id@);
        }
    }
    false
}

impl CommandMustSucceed {
    /// Track the given command ids (duplicates are kept once).
    pub fn new(ids: &[&str]) -> (r: Self)
        ensures
            forall|t: Seq<char>|
                command_texts(r.command_ids@).contains(t) <==> exists|i: int|
                    0 <= i < ids@.len() && (#[trigger] ids@[i])@ == t,
            forall|i: int, j: int|
                0 <= i < j < r.command_ids@.len() ==> r.command_ids@[i]@ != r.command_ids@[j]@,
    {
        let mut out: Vec<CommandId> = Vec::new();
        let mut i: usize = 0;
        while i < ids.len()
            invariant
                i <= ids@.len(),
                forall|t: Seq<char>|
                    command_texts(out@).contains(t) <==> exists|k: int|
                        0 <= k < i && (#[trigger] ids@[k])@ == t,
                forall|a: int, b: int| 0 <= a < b < out@.len() ==> out@[a]@ != out@[b]@,
            decreases ids@.len() - i,
        {
            let c = CommandId::new(ids[i]);
            let ghost before = out@;
            if !list_contains(&out, &c) {
                assert forall|a: int| 0 <= a < before.len() implies before[a]@ != c@ by {
                    if before[a]@ == c@ {
                        assert(command_texts(before)[a] == c@);
                    }
                }
                out.push(c);
                assert(command_texts(out@) =~= command_texts(before).push(c@));
            }
            proof {
                assert forall|t: Seq<char>|
                    command_texts(out@).contains(t) <==> exists|k: int|
                        0 <= k < i + 1 && (#[trigger] ids@[k])@ == t by {
                    if command_texts(out@).contains(t) {
                        if t == c@ {
                            assert(ids@[i as int]@ == t);
                        } else {
                            let q = choose|q: int|
                                0 <= q < command_texts(out@).len() && command_texts(out@)[q] == t;
                            if q < before.len() {
                                assert(command_texts(before)[q] == t);
                                assert(command_texts(before).contains(t));
                            }
                        }
                    }
                    if exists|k: int| 0 <= k < i + 1 && (#[trigger] ids@[k])@ == t {
                        let k = choose|k: int| 0 <= k < i + 1 && (#[trigger] ids@[k])@ == t;
                        if k < i {
                            assert(command_texts(before).contains(t));
                            let q = choose|q: int|
                                0 <= q < command_texts(before).len() && command_texts(before)[q] == t;
                            assert(command_texts(out@)[q] == t);
                        } else {
                            if !command_texts(before).contains(c@) {
                                assert(command_texts(out@)[before.len() as int] == t);
                            }
                        }
                    }
                }
            }
            i += 1;
        }
        CommandMustSucceed { command_ids: out }
    }
}

impl Rule for CommandMustSucceed {
    open spec fn spec_name(&self) -> Seq<char> {
        "CommandMustSucceed"@
    }

    open spec fn spec_schedule(&self) -> OracleSchedule {
        OracleSchedule::PerScenario
    }

    open spec fn spec_evaluate(&self, id: SessionId, events: Seq<TraceEvent>) -> ResultModel {
        fail_model(
            "CommandMustSucceed"@,
            command_failure_violations(command_texts(self.command_ids@), events, events.len()),
        )
    }

    proof fn lemma_judges_content(&self, id: SessionId, a: Seq<TraceEvent>, b: Seq<TraceEvent>) {
        let ids = command_texts(self.command_ids@);
        let f = |e: TraceEvent| command_failure_violation(ids, e);
        assert forall|x: TraceEvent, y: TraceEvent| event_same(x, y) implies #[trigger] f(x) == #[trigger] f(y) by {}
        lemma_per_event_content(a, b, f, a.len());
    }

    fn name(&self) -> (r: String) {
        "CommandMustSucceed".to_owned()
    }

    fn schedule(&self) -> (r: OracleSchedule) {
        OracleSchedule::PerScenario
    }

    fn evaluate(&self, session: &Session<TraceEvent>) -> (r: OracleResult) {
        let events = session.events();
        let ghost ids = command_texts(self.command_ids@);
        let mut out: Vec<OracleViolation> = Vec::new();
        let mut i: usize = 0;
        while i < events.len()
            invariant
                events@ == session.spec_events(),
                ids == command_texts(self.command_ids@),
                i <= events@.len(),
                violations_model(out@) == command_failure_violations(ids, events@, i as nat),
            decreases events@.len() - i,
        {
            let ev = &events[i];
            match &ev.kind {
                TraceEventKind::CommandExecuted { command_id, outcome, .. } => {
                    if list_contains(&self.command_ids, command_id) && outcome.is_failure() {
                        let mut m = String::new();
                        m.append("Command '");
                        m.append(command_id.as_str());
                        m.append("' did not succeed (seq ");
                        push_nat(&mut m, ev.seq.0);
                        m.append(")");
                        assert(m@ =~= "Command '"@ + command_id@ + "' did not succeed (seq "@
                            + nat_text(ev.seq.0 as nat) + ")"@);
                        let v = make_violation("CommandMustSucceed", Severity::Error, m, one_seq(ev.seq));
                        let ghost before = out@;
                        out.push(v);
                        assert(violations_model(out@) =~= violations_model(before).push(v.model()));
                    }
                },
                _ => {},
            }
            i += 1;
        }
        OracleResult::fail("CommandMustSucceed", out)
    }
}

// ---------------------------------------------------------------------------
// ScreenMustNavigateForward
// ---------------------------------------------------------------------------

/// Fails (with a `Warning`) each time a screen is opened or navigated to
/// that was already arrived at earlier in the session.
#[derive(Clone, Copy, Debug, Default)]
pub struct ScreenMustNavigateForward;

/// The screen an event arrives at, if it opens or navigates to one.
pub open spec fn arrival(e: TraceEvent) -> Option<Seq<char>> {
    match e.kind {
        TraceEventKind::ScreenOpened { screen_id, .. } => Some(screen_id@),
        TraceEventKind::NavigationOccurred { to, .. } => Some(to@),
        _ => None,
    }
}

/// History of arrivals and violations after a prefix of events.
pub struct NavState {
    pub history: Seq<Seq<char>>,
    pub violations: Seq<ViolationModel>,
}

/// Navigation state after the first `n` events.
pub open spec fn navigation_prefix(events: Seq<TraceEvent>, n: nat) -> NavState
    decreases n,
{
    if n == 0 || n > events.len() {
        NavState { history: Seq::empty(), violations: Seq::empty() }
    } else {
        let st = navigation_prefix(events, (n - 1) as nat);
        let e = events[n - 1];
        match arrival(e) {
            Some(s) => NavState {
                history: st.history.push(s),
                violations: if st.history.contains(s) {
                    st.violations.push(
                        ViolationModel {
                            rule: "ScreenMustNavigateForward"@,
                            severity: Severity::Warning,
                            message: "Navigation revisited screen '"@ + s + "' (seq "@ + nat_text(
                                e.seq.0 as nat,
                            ) + ")"@,
                            evidence: seq![e.seq],
                        },
                    )
                } else {
                    st.violations
                },
            },
            None => st,
        }
    }
}

proof fn lemma_navigation_content(a: Seq<TraceEvent>, b: Seq<TraceEvent>, n: nat)
    requires
        events_same(a, b),
    ensures
        navigation_prefix(a, n) == navigation_prefix(b, n),
    decreases n,
{
    if n > 0 && n <= a.len() {
        lemma_navigation_content(a, b, (n - 1) as nat);
        assert(event_same(a[n - 1], b[n - 1]));
        assert(arrival(a[n - 1]) == arrival(b[n - 1]));
    }
}

fn history_contains(history: &Vec<ScreenId>, s: &ScreenId) -> (r: bool)
    ensures
        r == history@.map_values(|h: ScreenId| h@).contains(s@),
{
    let ghost hs = history@.map_values(|h: ScreenId| h@);
    let mut i: usize = 0;
    while i < history.len()
        invariant
            hs == history@.map_values(|h: ScreenId| h@),
            i <= history@.len(),
            forall|j: int| 0 <= j < i ==> history@[j]@ != s@,
        decreases history@.len() - i,
    {
        if history[i].same(s) {
            assert(hs[i as int] == s@);
            return true;
        }
        i += 1;
    }
    proof {
        if hs.contains(s@) {
            let k = choose|k: int| 0 <= k < hs.len() && hs[k] == s@;
            assert(history@[k]@ == s@);
        }
    }
    false
}

impl Rule for ScreenMustNavigateForward {
    open spec fn spec_name(&self) -> Seq<char> {
        "ScreenMustNavigateForward"@
    }

    open spec fn spec_schedule(&self) -> OracleSchedule {
        OracleSchedule::PerScenario
    }

    open spec fn spec_evaluate(&self, id: SessionId, events: Seq<TraceEvent>) -> ResultModel {
        fail_model("ScreenMustNavigateForward"@, navigation_prefix(events, events.len()).violations)
    }

    proof fn lemma_judges_content(&self, id: SessionId, a: Seq<TraceEvent>, b: Seq<TraceEvent>) {
        lemma_navigation_content(a, b, a.len());
    }

    fn name(&self) -> (r: String) {
        "ScreenMustNavigateForward".to_owned()
    }

    fn schedule(&self) -> (r: OracleSchedule) {
        OracleSchedule::PerScenario
    }

    fn evaluate(&self, session: &Session<TraceEvent>) -> (r: OracleResult) {
        let events = session.events();
        let mut history: Vec<ScreenId> = Vec::new();
        let mut out: Vec<OracleViolation> = Vec::new();
        let mut i: usize = 0;
        while i < events.len()
            invariant
                events@ == session.spec_events(),
                i <= events@.len(),
                history@.map_values(|h: ScreenId| h@) == navigation_prefix(events@, i as nat).history,
                violations_model(out@) == navigation_prefix(events@, i as nat).violations,
            decreases events@.len() - i,
        {
            let ev = &events[i];
            let arrived: Option<&ScreenId> = match &ev.kind {
                TraceEventKind::ScreenOpened { screen_id, .. } => Some(screen_id),
                TraceEventKind::NavigationOccurred { to, .. } => Some(to),
                _ => None,
            };
            match arrived {
                Some(screen) => {
                    if history_contains(&history, screen) {
                        let mut m = String::new();
                        m.append("Navigation revisited screen '");
                        m.append(screen.as_str());
                        m.append("' (seq ");
                        push_nat(&mut m, ev.seq.0);
                        m.append(")");
                        assert(m@ =~= "Navigation revisited screen '"@ + screen@ + "' (seq "@
                            + nat_text(ev.seq.0 as nat) + ")"@);
                        let v = make_violation(
                            "ScreenMustNavigateForward",
                            Severity::Warning,
                            m,
                            one_seq(ev.seq),
                        );
                        let ghost before = out@;
                        out.push(v);
                        assert(violations_model(out@) =~= violations_model(before).push(v.model()));
                    }
                    let ghost hb = history@;
                    history.push(screen.duplicate());
                    assert(history@.map_values(|h: ScreenId| h@) =~= hb.map_values(|h: ScreenId| h@).push(
                        screen@,
                    ));
                },
                None => {},
            }
            i += 1;
        }
        OracleResult::fail("ScreenMustNavigateForward", out)
    }
}

// ---------------------------------------------------------------------------
// ValidationsPassBeforeSubmit
// ---------------------------------------------------------------------------

/// Fails when a submit command is the very next event after a validation
/// failure. Failures stay outstanding only while further failures follow
/// them; any other event clears them, and a submit that clears them is a
/// violation whose evidence is the run of failures and the submit.
#[derive(Clone, Debug)]
pub struct ValidationsPassBeforeSubmit {
    /// Command-id suffixes that identify submit commands.
    pub submit_suffixes: Vec<String>,
}

impl Default for ValidationsPassBeforeSubmit {
    fn default() -> (r: Self)
        ensures
            r.submit_suffixes@.map_values(|s: String| s@) == seq![".Submit"@, ".Save"@],
    {
        let mut v: Vec<String> = Vec::new();
        v.push(".Submit".to_owned());
        v.push(".Save".to_owned());
        let r = ValidationsPassBeforeSubmit { submit_suffixes: v };
        assert(r.submit_suffixes@.map_values(|s: String| s@) =~= seq![".Submit"@, ".Save"@]);
        r
    }
}

/// A submit command: its id ends with one of the suffixes.
pub open spec fn is_submit_text(suffixes: Seq<Seq<char>>, command: Seq<char>) -> bool {
    exists|i: int| 0 <= i < suffixes.len() && ends_with_text(command, #[trigger] suffixes[i])
}

/// Outstanding failures and violations after a prefix of events.
pub struct SubmitState {
    pub pending: Seq<EventSeq>,
    pub violations: Seq<ViolationModel>,
}

/// Submit-rule state after the first `n` events.
pub open spec fn submit_prefix(suffixes: Seq<Seq<char>>, events: Seq<TraceEvent>, n: nat) -> SubmitState
    decreases n,
{
    if n == 0 || n > events.len() {
        SubmitState { pending: Seq::empty(), violations: Seq::empty() }
    } else {
        let st = submit_prefix(suffixes, events, (n - 1) as nat);
        let e = events[n - 1];
        match e.kind {
            TraceEventKind::ValidationFailed { .. } => SubmitState {
                pending: st.pending.push(e.seq),
                violations: st.violations,
            },
            TraceEventKind::CommandExecuted { command_id, .. } => SubmitState {
                pending: Seq::empty(),
                violations: if is_submit_text(suffixes, command_id@) && st.pending.len() > 0 {
                    st.violations.push(
                        ViolationModel {
                            rule: "ValidationsPassBeforeSubmit"@,
                            severity: Severity::Error,
                            message: "Submit command '"@ + command_id@ + "' fired with "@ + nat_text(
                                st.pending.len(),
                            ) + " outstanding validation failure(s)"@,
                            evidence: st.pending.push(e.seq),
                        },
                    )
                } else {
                    st.violations
                },
            },
            _ => SubmitState { pending: Seq::empty(), violations: st.violations },
        }
    }
}

proof fn lemma_submit_content(suffixes: Seq<Seq<char>>, a: Seq<TraceEvent>, b: Seq<TraceEvent>, n: nat)
    requires
        events_same(a, b),
    ensures
        submit_prefix(suffixes, a, n) == submit_prefix(suffixes, b, n),
    decreases n,
{
    if n > 0 && n <= a.len() {
        lemma_submit_content(suffixes, a, b, (n - 1) as nat);
        assert(event_same(a[n - 1], b[n - 1]));
    }
}

/// The event is a validation failure.
pub open spec fn is_validation_failure(e: TraceEvent) -> bool {
    e.kind is ValidationFailed
}

/// The event is a submit command.
pub open spec fn is_submit_event(suffixes: Seq<Seq<char>>, e: TraceEvent) -> bool {
    match e.kind {
        TraceEventKind::CommandExecuted { command_id, .. } => is_submit_text(suffixes, command_id@),
        _ => false,
    }
}

proof fn lemma_submit_prefix_shape(suffixes: Seq<Seq<char>>, events: Seq<TraceEvent>, n: nat)
    requires
        n <= events.len(),
    ensures
        submit_prefix(suffixes, events, n).pending.len() > 0 <==> (n > 0 && is_validation_failure(
            events[n - 1],
        )),
        submit_prefix(suffixes, events, n).violations.len() > 0 <==> exists|i: int|
            0 <= i && i + 1 < n && is_validation_failure(#[trigger] events[i]) && is_submit_event(
                suffixes,
                events[i + 1],
            ),
    decreases n,
{
    if n > 0 {
        lemma_submit_prefix_shape(suffixes, events, (n - 1) as nat);
        let st = submit_prefix(suffixes, events, (n - 1) as nat);
        let e = events[n - 1];
        if exists|i: int|
            0 <= i && i + 1 < n && is_validation_failure(#[trigger] events[i]) && is_submit_event(
                suffixes,
                events[i + 1],
            ) {
            let i = choose|i: int|
                0 <= i && i + 1 < n && is_validation_failure(#[trigger] events[i]) && is_submit_event(
                    suffixes,
                    events[i + 1],
                );
            if i + 1 < n - 1 {
                assert(st.violations.len() > 0);
            }
        }
        if n >= 2 && is_validation_failure(events[n - 2]) && is_submit_event(suffixes, e) {
            assert(is_validation_failure(events[n - 2]) && is_submit_event(suffixes, events[(n - 2) + 1]));
        }
    }
}

/// The submit rule fails exactly when some validation failure is followed,
/// as the very next event, by a submit command.
pub proof fn submit_fails_iff_submit_follows_failure(suffixes: Seq<Seq<char>>, events: Seq<TraceEvent>)
    ensures
        submit_prefix(suffixes, events, events.len()).violations.len() > 0 <==> exists|i: int|
            0 <= i && i + 1 < events.len() && is_validation_failure(#[trigger] events[i])
                && is_submit_event(suffixes, events[i + 1]),
{
    lemma_submit_prefix_shape(suffixes, events, events.len());
}

impl ValidationsPassBeforeSubmit {
    /// The suffix texts.
    pub open spec fn suffix_texts(&self) -> Seq<Seq<char>> {
        self.submit_suffixes@.map_values(|s: String| s@)
    }

    /// Whether `command_id` ends with one of the submit suffixes.
    pub fn is_submit(&self, command_id: &CommandId) -> (r: bool)
        ensures
            r == is_submit_text(self.suffix_texts(), command_id@),
    {
        let ghost sx = self.suffix_texts();
        let mut i: usize = 0;
        while i < self.submit_suffixes.len()
            invariant
                sx == self.suffix_texts(),
                i <= self.submit_suffixes@.len(),
                forall|j: int| 0 <= j < i ==> !ends_with_text(command_id@, sx[j]),
            decreases self.submit_suffixes@.len() - i,
        {
            if str_ends_with(command_id.as_str(), self.submit_suffixes[i].as_str()) {
                assert(ends_with_text(command_id@, sx[i as int]));
                return true;
            }
            i += 1;
        }
        false
    }
}

impl Rule for ValidationsPassBeforeSubmit {
    open spec fn spec_name(&self) -> Seq<char> {
        "ValidationsPassBeforeSubmit"@
    }

    open spec fn spec_schedule(&self) -> OracleSchedule {
        OracleSchedule::PerScenario
    }

    open spec fn spec_evaluate(&self, id: SessionId, events: Seq<TraceEvent>) -> ResultModel {
        fail_model(
            "ValidationsPassBeforeSubmit"@,
            submit_prefix(self.suffix_texts(), events, events.len()).violations,
        )
    }

    proof fn lemma_judges_content(&self, id: SessionId, a: Seq<TraceEvent>, b: Seq<TraceEvent>) {
        lemma_submit_content(self.suffix_texts(), a, b, a.len());
    }

    fn name(&self) -> (r: String) {
        "ValidationsPassBeforeSubmit".to_owned()
    }

    fn schedule(&self) -> (r: OracleSchedule) {
        OracleSchedule::PerScenario
    }

    fn evaluate(&self, session: &Session<TraceEvent>) -> (r: OracleResult) {
        let events = session.events();
        let ghost sx = self.suffix_texts();
        let mut pending: Vec<EventSeq> = Vec::new();
        let mut out: Vec<OracleViolation> = Vec::new();
        let mut i: usize = 0;
        while i < events.len()
            invariant
                events@ == session.spec_events(),
                sx == self.suffix_texts(),
                i <= events@.len(),
                pending@ == submit_prefix(sx, events@, i as nat).pending,
                violations_model(out@) == submit_prefix(sx, events@, i as nat).violations,
            decreases events@.len() - i,
        {
            let ev = &events[i];
            match &ev.kind {
                TraceEventKind::ValidationFailed { .. } => {
                    pending.push(ev.seq);
                },
                TraceEventKind::CommandExecuted { command_id, .. } => {
                    if self.is_submit(command_id) && pending.len() > 0 {
                        let count = pending.len();
                        let mut m = String::new();
                        m.append("Submit command '");
                        m.append(command_id.as_str());
                        m.append("' fired with ");
                        push_nat(&mut m, count as u64);
                        m.append(" outstanding validation failure(s)");
                        assert(m@ =~= "Submit command '"@ + command_id@ + "' fired with "@ + nat_text(
                            pending@.len(),
                        ) + " outstanding validation failure(s)"@);
                        let mut evidence = pending.clone();
                        evidence.push(ev.seq);
                        let v = make_violation("ValidationsPassBeforeSubmit", Severity::Error, m, evidence);
                        let ghost before = out@;
                        out.push(v);
                        assert(violations_model(out@) =~= violations_model(before).push(v.model()));
                    }
                    pending = Vec::new();
                    assert(pending@ =~= Seq::<EventSeq>::empty());
                },
                _ => {
                    pending = Vec::new();
                    assert(pending@ =~= Seq::<EventSeq>::empty());
                },
            }
            i += 1;
        }
        OracleResult::fail("ValidationsPassBeforeSubmit", out)
    }
}

// ---------------------------------------------------------------------------
// Graph47ResultMustBeNonNegative (example domain rule)
// ---------------------------------------------------------------------------

/// Example domain rule: fails when a successful `Graph47.Recalculate` is
/// immediately followed by an exception whose type contains `Negative`
/// (a command that reported success while a domain invariant broke).
#[derive(Clone, Copy, Debug, Default)]
pub struct Graph47ResultMustBeNonNegative;

/// The violation a consecutive pair produces, if any.
pub open spec fn negative_result_violation(prev: TraceEvent, next: TraceEvent) -> Option<ViolationModel> {
    match (prev.kind, next.kind) {
        (
            TraceEventKind::CommandExecuted { command_id, outcome, .. },
            TraceEventKind::ExceptionThrown { exception_type, .. },
        ) => {
            if command_id@ == "Graph47.Recalculate"@ && outcome is Success && (contains_text(
                exception_type@,
                "Negative"@,
            ) || contains_text(exception_type@, "NonNegative"@)) {
                Some(
                    ViolationModel {
                        rule: "Graph47.ResultMustBeNonNegative"@,
                        severity: Severity::Error,
                        message: "Graph47.Recalculate succeeded (seq "@ + nat_text(prev.seq.0 as nat)
                            + ") but produced "@ + exception_type@ + " (seq "@ + nat_text(
                            next.seq.0 as nat,
                        ) + ") \u{2014} off-by-one in quantity truncation when total > 1 000"@,
                        evidence: seq![prev.seq, next.seq],
                    },
                )
            } else {
                None
            }
        },
        _ => None,
    }
}

/// Violations among the first `n` consecutive pairs.
pub open spec fn negative_result_violations(events: Seq<TraceEvent>, n: nat) -> Seq<ViolationModel> {
    per_pair(events, |p: TraceEvent, q: TraceEvent| negative_result_violation(p, q), n)
}

impl Rule for Graph47ResultMustBeNonNegative {
    open spec fn spec_name(&self) -> Seq<char> {
        "Graph47.ResultMustBeNonNegative"@
    }

    open spec fn spec_schedule(&self) -> OracleSchedule {
        OracleSchedule::PerScenario
    }

    open spec fn spec_evaluate(&self, id: SessionId, events: Seq<TraceEvent>) -> ResultModel {
        fail_model(
            "Graph47.ResultMustBeNonNegative"@,
            negative_result_violations(events, pair_count(events)),
        )
    }

    proof fn lemma_judges_content(&self, id: SessionId, a: Seq<TraceEvent>, b: Seq<TraceEvent>) {
        let f = |p: TraceEvent, q: TraceEvent| negative_result_violation(p, q);
        assert forall|x: TraceEvent, y: TraceEvent, u: TraceEvent, v: TraceEvent|
            event_same(x, u) && event_same(y, v) implies #[trigger] f(x, y) == #[trigger] f(u, v) by {}
        lemma_per_pair_content(a, b, f, pair_count(a));
    }

    fn name(&self) -> (r: String) {
        "Graph47.ResultMustBeNonNegative".to_owned()
    }

    fn schedule(&self) -> (r: OracleSchedule) {
        OracleSchedule::PerScenario
    }

    fn evaluate(&self, session: &Session<TraceEvent>) -> (r: OracleResult) {
        let events = session.events();
        let recalc = "Graph47.Recalculate".to_owned();
        let n = events.len();
        let mut out: Vec<OracleViolation> = Vec::new();
        let mut i: usize = 0;
        while i < n - 1
            invariant
                events@ == session.spec_events(),
                n == events@.len(),
                n > 0,
                i <= n - 1,
                recalc@ == "Graph47.Recalculate"@,
                violations_model(out@) == negative_result_violations(events@, i as nat),
            decreases events@.len() - i,
        {
            let prev = &events[i];
            let next = &events[i + 1];
            match (&prev.kind, &next.kind) {
                (
                    TraceEventKind::CommandExecuted { command_id, outcome, .. },
                    TraceEventKind::ExceptionThrown { exception_type, .. },
                ) => {
                    if command_id.0 == recalc && outcome.is_success() && (str_contains(
                        exception_type.as_str(),
                        "Negative",
                    ) || str_contains(exception_type.as_str(), "NonNegative")) {
                        let mut m = String::new();
                        m.append("Graph47.Recalculate succeeded (seq ");
                        push_nat(&mut m, prev.seq.0);
                        m.append(") but produced ");
                        m.append(exception_type.as_str());
                        m.append(" (seq ");
                        push_nat(&mut m, next.seq.0);
                        m.append(") \u{2014} off-by-one in quantity truncation when total > 1 000");
                        assert(m@ =~= "Graph47.Recalculate succeeded (seq "@ + nat_text(
                            prev.seq.0 as nat,
                        ) + ") but produced "@ + exception_type@ + " (seq "@ + nat_text(
                            next.seq.0 as nat,
                        ) + ") \u{2014} off-by-one in quantity truncation when total > 1 000"@);
                        let v = make_violation(
                            "Graph47.ResultMustBeNonNegative",
                            Severity::Error,
                            m,
                            two_seqs(prev.seq, next.seq),
                        );
                        let ghost before = out@;
                        out.push(v);
                        assert(violations_model(out@) =~= violations_model(before).push(v.model()));
                    }
                },
                _ => {},
            }
            i += 1;
        }
        OracleResult::fail("Graph47.ResultMustBeNonNegative", out)
    }
}

// ---------------------------------------------------------------------------
// BuiltinRule
// ---------------------------------------------------------------------------

/// Any one of the built-in rules, so that one engine can hold several kinds.
#[derive(Clone, Debug)]
pub enum BuiltinRule {
    NoUnhandledException(NoUnhandledException),
    NoErrorModalAfterCommand(NoErrorModalAfterCommand),
    CommandMustSucceed(CommandMustSucceed),
    ScreenMustNavigateForward(ScreenMustNavigateForward),
    ValidationsPassBeforeSubmit(ValidationsPassBeforeSubmit),
    Graph47ResultMustBeNonNegative(Graph47ResultMustBeNonNegative),
}

impl Rule for BuiltinRule {
    open spec fn spec_name(&self) -> Seq<char> {
        match self {
            BuiltinRule::NoUnhandledException(r) => r.spec_name(),
            BuiltinRule::NoErrorModalAfterCommand(r) => r.spec_name(),
            BuiltinRule::CommandMustSucceed(r) => r.spec_name(),
            BuiltinRule::ScreenMustNavigateForward(r) => r.spec_name(),
            BuiltinRule::ValidationsPassBeforeSubmit(r) => r.spec_name(),
            BuiltinRule::Graph47ResultMustBeNonNegative(r) => r.spec_name(),
        }
    }

    open spec fn spec_schedule(&self) -> OracleSchedule {
        match self {
            BuiltinRule::NoUnhandledException(r) => r.spec_schedule(),
            BuiltinRule::NoErrorModalAfterCommand(r) => r.spec_schedule(),
            BuiltinRule::CommandMustSucceed(r) => r.spec_schedule(),
            BuiltinRule::ScreenMustNavigateForward(r) => r.spec_schedule(),
            BuiltinRule::ValidationsPassBeforeSubmit(r) => r.spec_schedule(),
            BuiltinRule::Graph47ResultMustBeNonNegative(r) => r.spec_schedule(),
        }
    }

    open spec fn spec_evaluate(&self, id: SessionId, events: Seq<TraceEvent>) -> ResultModel {
        match self {
            BuiltinRule::NoUnhandledException(r) => r.spec_evaluate(id, events),
            BuiltinRule::NoErrorModalAfterCommand(r) => r.spec_evaluate(id, events),
            BuiltinRule::CommandMustSucceed(r) => r.spec_evaluate(id, events),
            BuiltinRule::ScreenMustNavigateForward(r) => r.spec_evaluate(id, events),
            BuiltinRule::ValidationsPassBeforeSubmit(r) => r.spec_evaluate(id, events),
            BuiltinRule::Graph47ResultMustBeNonNegative(r) => r.spec_evaluate(id, events),
        }
    }

    proof fn lemma_judges_content(&self, id: SessionId, a: Seq<TraceEvent>, b: Seq<TraceEvent>) {
        match self {
            BuiltinRule::NoUnhandledException(r) => r.lemma_judges_content(id, a, b),
            BuiltinRule::NoErrorModalAfterCommand(r) => r.lemma_judges_content(id, a, b),
            BuiltinRule::CommandMustSucceed(r) => r.lemma_judges_content(id, a, b),
            BuiltinRule::ScreenMustNavigateForward(r) => r.lemma_judges_content(id, a, b),
            BuiltinRule::ValidationsPassBeforeSubmit(r) => r.lemma_judges_content(id, a, b),
            BuiltinRule::Graph47ResultMustBeNonNegative(r) => r.lemma_judges_content(id, a, b),
        }
    }

    fn name(&self) -> (r: String) {
        match self {
            BuiltinRule::NoUnhandledException(r) => r.name(),
            BuiltinRule::NoErrorModalAfterCommand(r) => r.name(),
            BuiltinRule::CommandMustSucceed(r) => r.name(),
            BuiltinRule::ScreenMustNavigateForward(r) => r.name(),
            BuiltinRule::ValidationsPassBeforeSubmit(r) => r.name(),
            BuiltinRule::Graph47ResultMustBeNonNegative(r) => r.name(),
        }
    }

    fn schedule(&self) -> (r: OracleSchedule) {
        match self {
            BuiltinRule::NoUnhandledException(r) => r.schedule(),
            BuiltinRule::NoErrorModalAfterCommand(r) => r.schedule(),
            BuiltinRule::CommandMustSucceed(r) => r.schedule(),
            BuiltinRule::ScreenMustNavigateForward(r) => r.schedule(),
            BuiltinRule::ValidationsPassBeforeSubmit(r) => r.schedule(),
            BuiltinRule::Graph47ResultMustBeNonNegative(r) => r.schedule(),
        }
    }

    fn evaluate(&self, session: &Session<TraceEvent>) -> (r: OracleResult) {
        match self {
            BuiltinRule::NoUnhandledException(r) => r.evaluate(session),
            BuiltinRule::NoErrorModalAfterCommand(r) => r.evaluate(session),
            BuiltinRule::CommandMustSucceed(r) => r.evaluate(session),
            BuiltinRule::ScreenMustNavigateForward(r) => r.evaluate(session),
            BuiltinRule::ValidationsPassBeforeSubmit(r) => r.evaluate(session),
            BuiltinRule::Graph47ResultMustBeNonNegative(r) => r.evaluate(session),
        }
    }
}

} // verus!
