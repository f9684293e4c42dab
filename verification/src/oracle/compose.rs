//! Composition of rules: [`AndRule`], [`OrRule`], [`WithinWindowRule`].

use vstd::prelude::*;

use crate::event::{events_same, TraceEvent};
use crate::ids::SessionId;
use crate::oracle::rule::{
    fail_model, pass_model, violations_model, OracleResult, OracleSchedule, OracleViolation,
    ResultModel, Rule, ViolationModel,
};
use crate::session::Session;

verus! {

/// The violations of every rule of `rules` on a session, rule after rule.
pub open spec fn all_violations<R: Rule>(rules: Seq<R>, id: SessionId, events: Seq<TraceEvent>) -> Seq<
    ViolationModel,
>
    decreases rules.len(),
{
    if rules.len() == 0 {
        Seq::empty()
    } else {
        all_violations(rules.drop_last(), id, events) + rules.last().spec_evaluate(id, events).violations
    }
}

/// Some rule of `rules` passes on the session.
pub open spec fn any_passes<R: Rule>(rules: Seq<R>, id: SessionId, events: Seq<TraceEvent>) -> bool {
    exists|i: int| 0 <= i < rules.len() && (#[trigger] rules[i]).spec_evaluate(id, events).passed
}

proof fn lemma_all_violations_content<R: Rule>(
    rules: Seq<R>,
    id: SessionId,
    a: Seq<TraceEvent>,
    b: Seq<TraceEvent>,
)
    requires
        events_same(a, b),
    ensures
        all_violations(rules, id, a) == all_violations(rules, id, b),
    decreases rules.len(),
{
    if rules.len() > 0 {
        lemma_all_violations_content(rules.drop_last(), id, a, b);
        rules.last().lemma_judges_content(id, a, b);
    }
}

/// Evaluates every rule of `rules` in order, collecting all violations and
/// noting whether one of them passed.
fn evaluate_all<R: Rule>(rules: &Vec<R>, session: &Session<TraceEvent>) -> (r: (
    Vec<OracleViolation>,
    bool,
))
    ensures
        violations_model(r.0@) == all_violations(rules@, session.spec_id(), session.spec_events()),
        r.1 == any_passes(rules@, session.spec_id(), session.spec_events()),
{
    let ghost id = session.spec_id();
    let ghost evs = session.spec_events();
    let mut out: Vec<OracleViolation> = Vec::new();
    let mut any = false;
    let mut i: usize = 0;
    while i < rules.len()
        invariant
            id == session.spec_id(),
            evs == session.spec_events(),
            i <= rules@.len(),
            violations_model(out@) == all_violations(rules@.subrange(0, i as int), id, evs),
            any == exists|k: int| 0 <= k < i && (#[trigger] rules@[k]).spec_evaluate(id, evs).passed,
        decreases rules@.len() - i,
    {
        let res = rules[i].evaluate(session);
        let ghost before = out@;
        let passed = res.passed;
        let mut vs = res.violations;
        let ghost added = vs@;
        out.append(&mut vs);
        proof {
            assert(rules@.subrange(0, i + 1).drop_last() =~= rules@.subrange(0, i as int));
            assert(out@ =~= before + added);
            assert(violations_model(out@) =~= violations_model(before) + violations_model(added));
        }
        if passed {
            any = true;
        }
        i += 1;
    }
    assert(rules@.subrange(0, rules@.len() as int) =~= rules@);
    (out, any)
}

/// Passes exactly when all inner rules pass: the violations of every
/// inner rule, under one name.
pub struct AndRule<R> {
    /// Inner rules; all must pass.
    pub rules: Vec<R>,
    /// Stable name of the composition.
    pub name: String,
}

impl<R: Rule> AndRule<R> {
    /// A named conjunction of `rules`.
    pub fn new(name: &str, rules: Vec<R>) -> (r: Self)
        ensures
            r.name@ == name@,
            r.rules@ == rules@,
    {
        AndRule { rules, name: name.to_owned() }
    }
}

impl<R: Rule> Rule for AndRule<R> {
    open spec fn spec_name(&self) -> Seq<char> {
        self.name@
    }

    open spec fn spec_schedule(&self) -> OracleSchedule {
        OracleSchedule::PerScenario
    }

    open spec fn spec_evaluate(&self, id: SessionId, events: Seq<TraceEvent>) -> ResultModel {
        fail_model(self.name@, all_violations(self.rules@, id, events))
    }

    proof fn lemma_judges_content(&self, id: SessionId, a: Seq<TraceEvent>, b: Seq<TraceEvent>) {
        lemma_all_violations_content(self.rules@, id, a, b);
    }

    fn name(&self) -> (r: String) {
        self.name.clone()
    }

    fn schedule(&self) -> (r: OracleSchedule) {
        OracleSchedule::PerScenario
    }

    fn evaluate(&self, session: &Session<TraceEvent>) -> (r: OracleResult) {
        let (vs, _) = evaluate_all(&self.rules, session);
        OracleResult::fail(self.name.as_str(), vs)
    }
}

/// Passes exactly when at least one inner rule passes (so never with no
/// inner rules); otherwise fails with the violations of every inner rule,
/// under one name.
pub struct OrRule<R> {
    /// Inner rules; at least one must pass.
    pub rules: Vec<R>,
    /// Stable name of the composition.
    pub name: String,
}

impl<R: Rule> OrRule<R> {
    /// A named disjunction of `rules`.
    pub fn new(name: &str, rules: Vec<R>) -> (r: Self)
        ensures
            r.name@ == name@,
            r.rules@ == rules@,
    {
        OrRule { rules, name: name.to_owned() }
    }
}

impl<R: Rule> Rule for OrRule<R> {
    open spec fn spec_name(&self) -> Seq<char> {
        self.name@
    }

    open spec fn spec_schedule(&self) -> OracleSchedule {
        OracleSchedule::PerScenario
    }

    open spec fn spec_evaluate(&self, id: SessionId, events: Seq<TraceEvent>) -> ResultModel {
        if any_passes(self.rules@, id, events) {
            pass_model(self.name@)
        } else {
            ResultModel { rule: self.name@, passed: false, violations: all_violations(self.rules@, id, events) }
        }
    }

    proof fn lemma_judges_content(&self, id: SessionId, a: Seq<TraceEvent>, b: Seq<TraceEvent>) {
        lemma_all_violations_content(self.rules@, id, a, b);
        assert forall|i: int| 0 <= i < self.rules@.len() implies (#[trigger] self.rules@[i]).spec_evaluate(
            id,
            a,
        ) == self.rules@[i].spec_evaluate(id, b) by {
            self.rules@[i].lemma_judges_content(id, a, b);
        }
        assert(any_passes(self.rules@, id, a) == any_passes(self.rules@, id, b));
    }

    fn name(&self) -> (r: String) {
        self.name.clone()
    }

    fn schedule(&self) -> (r: OracleSchedule) {
        OracleSchedule::PerScenario
    }

    fn evaluate(&self, session: &Session<TraceEvent>) -> (r: OracleResult) {
        let (vs, any) = evaluate_all(&self.rules, session);
        if any {
            OracleResult::pass(self.name.as_str())
        } else {
            let r = OracleResult { rule: self.name.clone(), passed: false, violations: vs };
            r
        }
    }
}

/// An inner rule scheduled over a rolling window of `window_ms`: the
/// engine hands it the events of each window. Evaluated directly, it is the
/// inner rule on the whole session, unchanged.
pub struct WithinWindowRule<R> {
    /// The rule applied to each window.
    pub inner: R,
    /// Window width in milliseconds.
    pub window_ms: u64,
}

impl<R: Rule> WithinWindowRule<R> {
    /// Wrap `inner`, windowed to `window_ms`.
    pub fn new(inner: R, window_ms: u64) -> (r: Self)
        ensures
            r.inner == inner,
            r.window_ms == window_ms,
    {
        WithinWindowRule { inner, window_ms }
    }
}

impl<R: Rule> Rule for WithinWindowRule<R> {
    open spec fn spec_name(&self) -> Seq<char> {
        self.inner.spec_name()
    }

    open spec fn spec_schedule(&self) -> OracleSchedule {
        OracleSchedule::WindowBased { window_ms: self.window_ms }
    }

    open spec fn spec_evaluate(&self, id: SessionId, events: Seq<TraceEvent>) -> ResultModel {
        self.inner.spec_evaluate(id, events)
    }

    proof fn lemma_judges_content(&self, id: SessionId, a: Seq<TraceEvent>, b: Seq<TraceEvent>) {
        self.inner.lemma_judges_content(id, a, b);
    }

    fn name(&self) -> (r: String) {
        self.inner.name()
    }

    fn schedule(&self) -> (r: OracleSchedule) {
        OracleSchedule::WindowBased { window_ms: self.window_ms }
    }

    fn evaluate(&self, session: &Session<TraceEvent>) -> (r: OracleResult) {
        self.inner.evaluate(session)
    }
}

} // verus!
