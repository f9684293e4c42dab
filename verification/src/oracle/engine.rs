//! [`OracleEngine`]: runs oracle rules against sessions.

use vstd::prelude::*;

use crate::event::TraceEvent;
use crate::ids::SessionId;
use crate::oracle::rule::{severity_rank, OracleResult, ResultModel, Rule, Severity, ViolationModel};
use crate::oracle::rule::{fail_model, pair_count};
use crate::oracle::rules::{
    command_failure_violations, command_texts, error_modal_violations, navigation_prefix,
    submit_prefix, unhandled_exception_violations, BuiltinRule, CommandMustSucceed, NoErrorModalAfterCommand, NoUnhandledException,
    ScreenMustNavigateForward, ValidationsPassBeforeSubmit,
};
use crate::session::Session;

verus! {

/// Element-wise model of results.
pub open spec fn results_model(s: Seq<OracleResult>) -> Seq<ResultModel> {
    s.map_values(|r: OracleResult| r.model())
}

/// The highest violation rank in `vs` (`-1` when there is none).
pub open spec fn violations_max_rank(vs: Seq<ViolationModel>) -> int
    decreases vs.len(),
{
    if vs.len() == 0 {
        -1
    } else {
        let m = violations_max_rank(vs.drop_last());
        let k = severity_rank(vs.last().severity);
        if k > m {
            k
        } else {
            m
        }
    }
}

/// The highest violation rank across `rs` (`-1` when there is none).
pub open spec fn results_max_rank(rs: Seq<ResultModel>) -> int
    decreases rs.len(),
{
    if rs.len() == 0 {
        -1
    } else {
        let m = results_max_rank(rs.drop_last());
        let k = violations_max_rank(rs.last().violations);
        if k > m {
            k
        } else {
            m
        }
    }
}

/// The severity of a rank (`None` below 0).
pub open spec fn severity_of_rank(k: int) -> Option<Severity> {
    if k < 0 {
        None
    } else if k == 0 {
        Some(Severity::Warning)
    } else if k == 1 {
        Some(Severity::Error)
    } else {
        Some(Severity::Critical)
    }
}

/// The combined results for one session.
#[derive(Debug)]
pub struct SessionReport {
    /// The session that was evaluated.
    pub session_id: SessionId,
    /// One result per rule, in rule order.
    pub results: Vec<OracleResult>,
}

pub proof fn lemma_violations_max_rank_bounds(vs: Seq<ViolationModel>)
    ensures
        -1 <= violations_max_rank(vs) <= 2,
        violations_max_rank(vs) == -1 <==> vs.len() == 0,
    decreases vs.len(),
{
    if vs.len() > 0 {
        lemma_violations_max_rank_bounds(vs.drop_last());
    }
}

pub proof fn lemma_results_max_rank_bounds(rs: Seq<ResultModel>)
    ensures
        -1 <= results_max_rank(rs) <= 2,
    decreases rs.len(),
{
    if rs.len() > 0 {
        lemma_results_max_rank_bounds(rs.drop_last());
        lemma_violations_max_rank_bounds(rs.last().violations);
    }
}

impl SessionReport {
    /// Highest severity across all violations in this session.
    pub fn max_severity(&self) -> (r: Option<Severity>)
        ensures
            r == severity_of_rank(results_max_rank(results_model(self.results@))),
    {
        let ghost rs = results_model(self.results@);
        let mut best: i8 = -1;
        let mut i: usize = 0;
        while i < self.results.len()
            invariant
                rs == results_model(self.results@),
                i <= self.results@.len(),
                best == results_max_rank(rs.subrange(0, i as int)),
            decreases self.results@.len() - i,
        {
            let vs = &self.results[i].violations;
            let ghost vm = rs[i as int].violations;
            let mut local: i8 = -1;
            let mut j: usize = 0;
            while j < vs.len()
                invariant
                    vm == crate::oracle::rule::violations_model(vs@),
                    j <= vs@.len(),
                    local == violations_max_rank(vm.subrange(0, j as int)),
                decreases vs@.len() - j,
            {
                proof {
                    assert(vm.subrange(0, j + 1).drop_last() =~= vm.subrange(0, j as int));
                    lemma_violations_max_rank_bounds(vm.subrange(0, j as int));
                }
                let k = vs[j].severity.rank() as i8;
                if k > local {
                    local = k;
                }
                j += 1;
            }
            assert(vm.subrange(0, vs@.len() as int) =~= vm);
            proof {
                assert(rs.subrange(0, i + 1).drop_last() =~= rs.subrange(0, i as int));
                lemma_results_max_rank_bounds(rs.subrange(0, i as int));
                lemma_violations_max_rank_bounds(vm);
            }
            if local > best {
                best = local;
            }
            i += 1;
        }
        assert(rs.subrange(0, self.results@.len() as int) =~= rs);
        if best < 0 {
            None
        } else if best == 0 {
            Some(Severity::Warning)
        } else if best == 1 {
            Some(Severity::Error)
        } else {
            Some(Severity::Critical)
        }
    }

    /// True iff every rule passed.
    pub fn all_passed(&self) -> (r: bool)
        ensures
            r == forall|i: int| 0 <= i < self.results@.len() ==> (#[trigger] self.results@[i]).passed,
    {
        let mut i: usize = 0;
        while i < self.results.len()
            invariant
                i <= self.results@.len(),
                forall|j: int| 0 <= j < i ==> (#[trigger] self.results@[j]).passed,
            decreases self.results@.len() - i,
        {
            if !self.results[i].passed {
                return false;
            }
            i += 1;
        }
        true
    }
}

/// Runs a set of oracle rules against sessions.
///
/// The engine holds its rules by value; an engine mixing several kinds of
/// rule holds an enum over them, such as [`BuiltinRule`].
pub struct OracleEngine<R> {
    rules: Vec<R>,
}

/// The results of `rules` on a session, in rule order.
pub open spec fn run_model<R: Rule>(rules: Seq<R>, id: SessionId, events: Seq<TraceEvent>) -> Seq<
    ResultModel,
> {
    rules.map_values(|r: R| r.spec_evaluate(id, events))
}

impl<R: Rule> Default for OracleEngine<R> {
    /// An engine with no rules.
    fn default() -> (r: Self)
        ensures
            r.spec_rules() == Seq::<R>::empty(),
    {
        OracleEngine::new()
    }
}

impl<R: Rule> OracleEngine<R> {
    /// The registered rules, in order.
    pub closed spec fn spec_rules(&self) -> Seq<R> {
        self.rules@
    }

    /// An engine with no rules.
    pub fn new() -> (r: Self)
        ensures
            r.spec_rules() == Seq::<R>::empty(),
    {
        OracleEngine { rules: Vec::new() }
    }

    /// Register one more rule, run after those already registered.
    pub fn add_rule(&mut self, rule: R)
        ensures
            final(self).spec_rules() == old(self).spec_rules().push(rule),
    {
        self.rules.push(rule);
    }

    /// All registered rules.
    pub fn rules(&self) -> (r: &[R])
        ensures
            r@ == self.spec_rules(),
    {
        self.rules.as_slice()
    }

    /// Evaluate every rule against `session`, in rule order.
    pub fn run(&self, session: &Session<TraceEvent>) -> (r: SessionReport)
        ensures
            r.session_id == session.spec_id(),
            results_model(r.results@) == run_model(
                self.spec_rules(),
                session.spec_id(),
                session.spec_events(),
            ),
    {
        let mut results: Vec<OracleResult> = Vec::new();
        let mut i: usize = 0;
        while i < self.rules.len()
            invariant
                i <= self.rules@.len(),
                results@.len() == i,
                forall|j: int|
                    0 <= j < i ==> (#[trigger] results@[j]).model() == self.rules@[j].spec_evaluate(
                        session.spec_id(),
                        session.spec_events(),
                    ),
            decreases self.rules@.len() - i,
        {
            let res = self.rules[i].evaluate(session);
            results.push(res);
            i += 1;
        }
        assert(results_model(results@) =~= run_model(
            self.spec_rules(),
            session.spec_id(),
            session.spec_events(),
        ));
        SessionReport { session_id: *session.id(), results }
    }

    /// Evaluate every rule against every session, in session order.
    pub fn run_all(&self, sessions: &[Session<TraceEvent>]) -> (r: Vec<SessionReport>)
        ensures
            r@.len() == sessions@.len(),
            forall|k: int|
                0 <= k < sessions@.len() ==> (#[trigger] r@[k]).session_id == sessions@[k].spec_id()
                    && results_model(r@[k].results@) == run_model(
                    self.spec_rules(),
                    sessions@[k].spec_id(),
                    sessions@[k].spec_events(),
                ),
    {
        let mut out: Vec<SessionReport> = Vec::new();
        let mut k: usize = 0;
        while k < sessions.len()
            invariant
                k <= sessions@.len(),
                out@.len() == k,
                forall|j: int|
                    0 <= j < k ==> (#[trigger] out@[j]).session_id == sessions@[j].spec_id()
                        && results_model(out@[j].results@) == run_model(
                        self.spec_rules(),
                        sessions@[j].spec_id(),
                        sessions@[j].spec_events(),
                    ),
            decreases sessions@.len() - k,
        {
            out.push(self.run(&sessions[k]));
            k += 1;
        }
        out
    }
}

impl OracleEngine<BuiltinRule> {
    /// This engine with the five built-in rules appended, in default
    /// configuration: no unhandled exception, no error/modal screen after
    /// a command, no tracked command failing (none tracked), forward
    /// navigation, validations pass before submit (`.Submit`, `.Save`).
    pub fn with_builtin_rules(self) -> (r: Self)
        ensures
            r.spec_rules().len() == self.spec_rules().len() + 5,
            r.spec_rules().take(self.spec_rules().len() as int) == self.spec_rules(),
            r.spec_rules()[self.spec_rules().len() as int] is NoUnhandledException,
            r.spec_rules()[self.spec_rules().len() as int + 1] is NoErrorModalAfterCommand,
            r.spec_rules()[self.spec_rules().len() as int + 2] matches BuiltinRule::CommandMustSucceed(c)
                && c.command_ids@.len() == 0,
            r.spec_rules()[self.spec_rules().len() as int + 3] is ScreenMustNavigateForward,
            r.spec_rules()[self.spec_rules().len() as int + 4] matches BuiltinRule::ValidationsPassBeforeSubmit(v)
                && v.submit_suffixes@.map_values(|s: String| s@) == seq![".Submit"@, ".Save"@],
            forall|id: SessionId, evs: Seq<TraceEvent>|
                #[trigger] r.spec_rules()[self.spec_rules().len() as int].spec_evaluate(id, evs)
                    == fail_model(
                    "NoUnhandledException"@,
                    unhandled_exception_violations(evs, evs.len()),
                ),
            forall|id: SessionId, evs: Seq<TraceEvent>|
                #[trigger] r.spec_rules()[self.spec_rules().len() as int + 1].spec_evaluate(id, evs)
                    == fail_model(
                    "NoErrorModalAfterCommand"@,
                    error_modal_violations(evs, pair_count(evs)),
                ),
            forall|id: SessionId, evs: Seq<TraceEvent>|
                #[trigger] r.spec_rules()[self.spec_rules().len() as int + 2].spec_evaluate(id, evs)
                    == fail_model(
                    "CommandMustSucceed"@,
                    command_failure_violations(Seq::empty(), evs, evs.len()),
                ),
            forall|id: SessionId, evs: Seq<TraceEvent>|
                #[trigger] r.spec_rules()[self.spec_rules().len() as int + 3].spec_evaluate(id, evs)
                    == fail_model(
                    "ScreenMustNavigateForward"@,
                    navigation_prefix(evs, evs.len()).violations,
                ),
            forall|id: SessionId, evs: Seq<TraceEvent>|
                #[trigger] r.spec_rules()[self.spec_rules().len() as int + 4].spec_evaluate(id, evs)
                    == fail_model(
                    "ValidationsPassBeforeSubmit"@,
                    submit_prefix(seq![".Submit"@, ".Save"@], evs, evs.len()).violations,
                ),
    {
        let mut e = self;
        let none: [&str; 0] = [];
        let cms = CommandMustSucceed::new(&none);
        if cms.command_ids.len() > 0 {
            assert(command_texts(cms.command_ids@)[0] == cms.command_ids@[0]@);
            assert(command_texts(cms.command_ids@).contains(cms.command_ids@[0]@));
        }
        assert(command_texts(cms.command_ids@) =~= Seq::<Seq<char>>::empty());
        let ghost start = e.spec_rules();
        e.add_rule(BuiltinRule::NoUnhandledException(NoUnhandledException));
        e.add_rule(BuiltinRule::NoErrorModalAfterCommand(NoErrorModalAfterCommand));
        e.add_rule(BuiltinRule::CommandMustSucceed(cms));
        e.add_rule(BuiltinRule::ScreenMustNavigateForward(ScreenMustNavigateForward));
        e.add_rule(BuiltinRule::ValidationsPassBeforeSubmit(ValidationsPassBeforeSubmit::default()));
        assert(e.spec_rules().take(start.len() as int) =~= start);
        e
    }
}

/// A rule's result depends only on the rule and the session, never on
/// the other rules or their order: reordering the rules of an engine
/// reorders its results alike.
pub proof fn results_follow_rule_order<R: Rule>(
    rules: Seq<R>,
    reordered: Seq<R>,
    perm: Seq<int>,
    id: SessionId,
    events: Seq<TraceEvent>,
)
    requires
        reordered.len() == rules.len(),
        perm.len() == rules.len(),
        forall|j: int| 0 <= j < perm.len() ==> 0 <= #[trigger] perm[j] < rules.len() && reordered[j] == rules[perm[j]],
    ensures
        run_model(reordered, id, events).len() == run_model(rules, id, events).len(),
        forall|j: int|
            0 <= j < perm.len() ==> #[trigger] run_model(reordered, id, events)[j] == run_model(rules, id, events)[perm[j]],
{
}

} // verus!
