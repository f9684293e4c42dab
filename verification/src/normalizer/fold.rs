//! Scenario folding: project a session of events into a normalized
//! scenario, with a report that accounts for every event.

use vstd::prelude::*;

use crate::event::{TraceEvent, TraceEventKind};
use crate::ids::ScreenId;
use crate::event::{instant_ns, kind_same};
use crate::json::JsonModel;
use crate::normalizer::abstraction::{
    abstract_model, abstract_value, abstraction_is_idempotent, same_class_leaves,
    same_class_leaves_abstract_alike,
};
use crate::normalizer::config::NormCfg;
use crate::scenario::{actions_model, ActionModel, CanonicalAction, Scenario};
use crate::session::Session;

verus! {

/// Accounting for every event the fold consumed.
///
/// `input_events == output_actions + collapsed_bursts + dropped_noise`
/// always holds (see [`normalize`]).
#[derive(Clone, Copy, Debug, PartialEq, Eq, Structural)]
pub struct FoldReport {
    /// Events read from the session.
    pub input_events: usize,
    /// Canonical actions in the resulting scenario.
    pub output_actions: usize,
    /// Consecutive identical actions collapsed within the burst gap.
    pub collapsed_bursts: usize,
    /// Events that produced no canonical action.
    pub dropped_noise: usize,
    /// Inter-event idle gaps exceeding the configured idle gap.
    pub session_pauses: usize,
}

impl Default for FoldReport {
    fn default() -> (r: Self)
        ensures
            r.input_events == 0 && r.output_actions == 0 && r.collapsed_bursts == 0
                && r.dropped_noise == 0 && r.session_pauses == 0,
    {
        FoldReport { input_events: 0, output_actions: 0, collapsed_bursts: 0, dropped_noise: 0, session_pauses: 0 }
    }
}

/// The screen name used before any screen is known.
pub open spec fn unknown_screen() -> Seq<char> {
    seq!['<', 'u', 'n', 'k', 'n', 'o', 'w', 'n', '>']
}

/// The state of the fold after a prefix of the events.
pub struct FoldState {
    /// The screen currently in focus.
    pub screen: Seq<char>,
    /// Canonical actions kept so far.
    pub actions: Seq<ActionModel>,
    pub input: nat,
    pub collapsed: nat,
    pub dropped: nat,
    pub pauses: nat,
    /// Instant (nanoseconds) of the previous event.
    pub last_ts: Option<int>,
    /// Instant (nanoseconds) of the previous command.
    pub last_action_ts: Option<int>,
}

/// The fold before any event.
pub open spec fn fold_init() -> FoldState {
    FoldState {
        screen: unknown_screen(),
        actions: Seq::empty(),
        input: 0,
        collapsed: 0,
        dropped: 0,
        pauses: 0,
        last_ts: None,
        last_action_ts: None,
    }
}

/// The canonical action a command event projects to on `screen`.
pub open spec fn command_action(screen: Seq<char>, e: TraceEvent, cfg: NormCfg) -> ActionModel {
    match e.kind {
        TraceEventKind::CommandExecuted { command_id, args, .. } => ActionModel {
            screen,
            command: command_id@,
            args: abstract_model(args.model(), cfg.numeric_bucket_bounds@, cfg.overrides()),
        },
        _ => ActionModel { screen, command: Seq::empty(), args: crate::json::JsonModel::Null },
    }
}

/// The whole milliseconds in a span of `d` nanoseconds, truncated toward
/// zero (so a span of less than a millisecond either way counts as 0).
pub open spec fn whole_ms(d: int) -> int {
    if d >= 0 {
        d / 1_000_000
    } else {
        -((-d) / 1_000_000)
    }
}

/// `whole_ms` truncates toward zero: a span of `d` nanoseconds holds
/// `whole_ms(d)` whole milliseconds and less than one more, on either side
/// of zero.
pub proof fn whole_ms_truncates_toward_zero(d: int)
    ensures
        d >= 0 ==> 0 <= whole_ms(d) * 1_000_000 <= d < (whole_ms(d) + 1) * 1_000_000,
        d < 0 ==> (whole_ms(d) - 1) * 1_000_000 < d <= whole_ms(d) * 1_000_000 <= 0,
{
    if d >= 0 {
        assert(0 <= (d / 1_000_000) * 1_000_000 <= d < (d / 1_000_000 + 1) * 1_000_000) by (nonlinear_arith)
            requires
                d >= 0,
        ;
    } else {
        let e = -d;
        assert(0 <= (e / 1_000_000) * 1_000_000 <= e < (e / 1_000_000 + 1) * 1_000_000) by (nonlinear_arith)
            requires
                e > 0,
        ;
    }
}

/// Whether a command at instant `ts` (nanoseconds) projecting to `a`
/// collapses into the previous kept action: it equals it, and the whole
/// milliseconds since the previous command are at least 0 and less than
/// the burst gap.
pub open spec fn is_burst(st: FoldState, a: ActionModel, ts: int, cfg: NormCfg) -> bool {
    st.actions.len() > 0 && st.actions[st.actions.len() - 1] == a && match st.last_action_ts {
        Some(t) => 0 <= whole_ms(ts - t) && whole_ms(ts - t) < cfg.burst_gap_ms,
        None => false,
    }
}

/// One step of the fold.
pub open spec fn fold_step(st: FoldState, e: TraceEvent, cfg: NormCfg) -> FoldState {
    let pause = match st.last_ts {
        Some(p) => whole_ms(instant_ns(e) - p) > cfg.idle_gap_ms,
        None => false,
    };
    let input = st.input + 1;
    let pauses = if pause { st.pauses + 1 } else { st.pauses };
    let ts = instant_ns(e);
    match e.kind {
        TraceEventKind::ScreenOpened { screen_id, .. } => FoldState {
            screen: screen_id@,
            actions: st.actions,
            input,
            collapsed: st.collapsed,
            dropped: st.dropped + 1,
            pauses,
            last_ts: Some(ts),
            last_action_ts: st.last_action_ts,
        },
        TraceEventKind::NavigationOccurred { to, .. } => FoldState {
            screen: to@,
            actions: st.actions,
            input,
            collapsed: st.collapsed,
            dropped: st.dropped + 1,
            pauses,
            last_ts: Some(ts),
            last_action_ts: st.last_action_ts,
        },
        TraceEventKind::CommandExecuted { .. } => {
            let a = command_action(st.screen, e, cfg);
            if is_burst(st, a, ts, cfg) {
                FoldState {
                    screen: st.screen,
                    actions: st.actions,
                    input,
                    collapsed: st.collapsed + 1,
                    dropped: st.dropped,
                    pauses,
                    last_ts: Some(ts),
                    last_action_ts: Some(ts),
                }
            } else {
                FoldState {
                    screen: st.screen,
                    actions: st.actions.push(a),
                    input,
                    collapsed: st.collapsed,
                    dropped: st.dropped,
                    pauses,
                    last_ts: Some(ts),
                    last_action_ts: Some(ts),
                }
            }
        },
        _ => FoldState {
            screen: st.screen,
            actions: st.actions,
            input,
            collapsed: st.collapsed,
            dropped: st.dropped + 1,
            pauses,
            last_ts: Some(ts),
            last_action_ts: st.last_action_ts,
        },
    }
}

/// The fold after the first `n` events.
pub open spec fn fold_prefix(events: Seq<TraceEvent>, cfg: NormCfg, n: nat) -> FoldState
    decreases n,
{
    if n == 0 || n > events.len() {
        fold_init()
    } else {
        fold_step(fold_prefix(events, cfg, (n - 1) as nat), events[n - 1], cfg)
    }
}

/// The fold over all events.
pub open spec fn fold_events(events: Seq<TraceEvent>, cfg: NormCfg) -> FoldState {
    fold_prefix(events, cfg, events.len())
}

/// Every event is counted once: as a kept action, a collapsed burst or
/// dropped noise; pauses never outnumber events.
pub proof fn lemma_fold_counts(events: Seq<TraceEvent>, cfg: NormCfg, n: nat)
    requires
        n <= events.len(),
    ensures
        fold_prefix(events, cfg, n).input == n,
        fold_prefix(events, cfg, n).actions.len() + fold_prefix(events, cfg, n).collapsed
            + fold_prefix(events, cfg, n).dropped == n,
        fold_prefix(events, cfg, n).pauses <= n,
        fold_prefix(events, cfg, n).last_ts is Some ==> n > 0,
    decreases n,
{
    if n > 0 {
        lemma_fold_counts(events, cfg, (n - 1) as nat);
    }
}

/// The whole milliseconds from instant `(ms0, ns0)` to instant
/// `(ms1, ns1)`, each given as whole milliseconds and nanoseconds past them.
fn ms_between(ms1: i64, ns1: u32, ms0: i64, ns0: u32) -> (r: i128)
    ensures
        r == whole_ms((ms1 * 1_000_000 + ns1) - (ms0 * 1_000_000 + ns0)),
{
    let dms: i128 = (ms1 as i128) - (ms0 as i128);
    assert(-0x1_0000_0000_0000_0000 <= dms <= 0x1_0000_0000_0000_0000);
    assert(-0x1_0000_0000_0000_0000 * 1_000_000 <= dms * 1_000_000 <= 0x1_0000_0000_0000_0000 * 1_000_000)
        by (nonlinear_arith)
        requires
            -0x1_0000_0000_0000_0000 <= dms <= 0x1_0000_0000_0000_0000,
    ;
    let d: i128 = dms * 1_000_000 + ((ns1 as i128) - (ns0 as i128));
    assert(d == (ms1 * 1_000_000 + ns1) - (ms0 * 1_000_000 + ns0)) by (nonlinear_arith)
        requires
            dms == ms1 - ms0,
            d == dms * 1_000_000 + (ns1 - ns0),
    ;
    if d >= 0 {
        d / 1_000_000
    } else {
        -((-d) / 1_000_000)
    }
}

fn unknown_screen_id() -> (r: ScreenId)
    ensures
        r@ == unknown_screen(),
{
    proof { reveal_strlit("<unknown>"); }
    let r = ScreenId::new("<unknown>");
    assert(r@ =~= unknown_screen());
    r
}

/// Fold a session into a normalized scenario.
///
/// Command events become canonical `(screen, command, abstract args)`
/// actions; the current screen is tracked through screen openings and
/// navigations. Consecutive identical actions less than the burst gap
/// apart (and not out of order) collapse into one. The report accounts
/// for every event.
#[verifier::loop_isolation(false)]
pub fn normalize(session: &Session<TraceEvent>, cfg: &NormCfg) -> (r: (Scenario, FoldReport))
    ensures
        r.0.model() == fold_events(session.spec_events(), *cfg).actions,
        r.1.input_events == fold_events(session.spec_events(), *cfg).input,
        r.1.output_actions == fold_events(session.spec_events(), *cfg).actions.len(),
        r.1.collapsed_bursts == fold_events(session.spec_events(), *cfg).collapsed,
        r.1.dropped_noise == fold_events(session.spec_events(), *cfg).dropped,
        r.1.session_pauses == fold_events(session.spec_events(), *cfg).pauses,
        r.1.input_events == session.spec_events().len(),
        r.1.input_events == r.1.output_actions + r.1.collapsed_bursts + r.1.dropped_noise,
{
    let events = session.events();
    let ghost evs = events@;
    let mut current_screen = unknown_screen_id();
    let mut actions: Vec<CanonicalAction> = Vec::new();
    let mut report = FoldReport::default();
    let mut last_ts: Option<(i64, u32)> = None;
    let mut last_action_ts: Option<(i64, u32)> = None;
    let mut i: usize = 0;
    while i < events.len()
        invariant
            evs == events@,
            evs == session.spec_events(),
            i <= evs.len(),
            current_screen@ == fold_prefix(evs, *cfg, i as nat).screen,
            actions_model(actions@) == fold_prefix(evs, *cfg, i as nat).actions,
            report.input_events == fold_prefix(evs, *cfg, i as nat).input,
            report.collapsed_bursts == fold_prefix(evs, *cfg, i as nat).collapsed,
            report.dropped_noise == fold_prefix(evs, *cfg, i as nat).dropped,
            report.session_pauses == fold_prefix(evs, *cfg, i as nat).pauses,
            report.output_actions == 0,
            match last_ts {
                Some(t) => fold_prefix(evs, *cfg, i as nat).last_ts == Some(t.0 * 1_000_000 + t.1),
                None => fold_prefix(evs, *cfg, i as nat).last_ts is None,
            },
            match last_action_ts {
                Some(t) => fold_prefix(evs, *cfg, i as nat).last_action_ts == Some(t.0 * 1_000_000 + t.1),
                None => fold_prefix(evs, *cfg, i as nat).last_action_ts is None,
            },
        decreases evs.len() - i,
    {
        proof {
            lemma_fold_counts(evs, *cfg, i as nat);
        }
        let event = &events[i];
        report.input_events += 1;
        match last_ts {
            Some(prev) => {
                if ms_between(event.ts_ms, event.ts_sub_ns, prev.0, prev.1) > (cfg.idle_gap_ms as i128) {
                    report.session_pauses += 1;
                }
            },
            None => {},
        }
        last_ts = Some((event.ts_ms, event.ts_sub_ns));
        match &event.kind {
            TraceEventKind::ScreenOpened { screen_id, .. } => {
                current_screen = screen_id.duplicate();
                report.dropped_noise += 1;
            },
            TraceEventKind::NavigationOccurred { to, .. } => {
                current_screen = to.duplicate();
                report.dropped_noise += 1;
            },
            TraceEventKind::CommandExecuted { command_id, args, .. } => {
                let action = CanonicalAction {
                    screen_id: current_screen.duplicate(),
                    command_id: command_id.duplicate(),
                    abstract_args: abstract_value(args, cfg),
                };
                let ghost a = action.model();
                assert(a == command_action(current_screen@, *event, *cfg));
                let n = actions.len();
                let same_as_last = n > 0 && actions[n - 1].same(&action);
                let in_window = match last_action_ts {
                    Some(t) => {
                        let delta: i128 = ms_between(event.ts_ms, event.ts_sub_ns, t.0, t.1);
                        delta >= 0 && delta < (cfg.burst_gap_ms as i128)
                    },
                    None => false,
                };
                if same_as_last && in_window {
                    report.collapsed_bursts += 1;
                } else {
                    actions.push(action);
                    assert(actions_model(actions@) =~= fold_prefix(evs, *cfg, i as nat).actions.push(a));
                }
                last_action_ts = Some((event.ts_ms, event.ts_sub_ns));
            },
            _ => {
                report.dropped_noise += 1;
            },
        }
        i += 1;
    }
    proof {
        lemma_fold_counts(evs, *cfg, evs.len());
        assert(evs.len() == i);
    }
    report.output_actions = actions.len();
    (Scenario::new(actions), report)
}

/// The screen in focus after the first `n` events: the last screen opened
/// or navigated to, or the unknown screen.
pub open spec fn screen_at(events: Seq<TraceEvent>, n: nat) -> Seq<char>
    decreases n,
{
    if n == 0 || n > events.len() {
        unknown_screen()
    } else {
        match events[n - 1].kind {
            TraceEventKind::ScreenOpened { screen_id, .. } => screen_id@,
            TraceEventKind::NavigationOccurred { to, .. } => to@,
            _ => screen_at(events, (n - 1) as nat),
        }
    }
}

/// Every command of the first `n` events projected to its canonical
/// action, in source order, with nothing collapsed.
pub open spec fn projection_prefix(events: Seq<TraceEvent>, cfg: NormCfg, n: nat) -> Seq<ActionModel>
    decreases n,
{
    if n == 0 || n > events.len() {
        Seq::empty()
    } else {
        let p = projection_prefix(events, cfg, (n - 1) as nat);
        if events[n - 1].kind is CommandExecuted {
            p.push(command_action(screen_at(events, (n - 1) as nat), events[n - 1], cfg))
        } else {
            p
        }
    }
}

/// Every command projected to its canonical action, in source order.
pub open spec fn projection(events: Seq<TraceEvent>, cfg: NormCfg) -> Seq<ActionModel> {
    projection_prefix(events, cfg, events.len())
}

/// `f` embeds `a` into `b`: strictly increasing positions of `b` holding
/// the elements of `a` in order.
pub open spec fn embeds<A>(f: Seq<int>, a: Seq<A>, b: Seq<A>) -> bool {
    &&& f.len() == a.len()
    &&& forall|i: int| 0 <= i < f.len() ==> 0 <= #[trigger] f[i] < b.len() && a[i] == b[f[i]]
    &&& forall|i: int, j: int| 0 <= i < j < f.len() ==> f[i] < f[j]
}

/// `a` is an in-order (not necessarily contiguous) subsequence of `b`.
pub open spec fn is_subsequence<A>(a: Seq<A>, b: Seq<A>) -> bool {
    exists|f: Seq<int>| embeds(f, a, b)
}

proof fn lemma_fold_screen(events: Seq<TraceEvent>, cfg: NormCfg, n: nat)
    requires
        n <= events.len(),
    ensures
        fold_prefix(events, cfg, n).screen == screen_at(events, n),
    decreases n,
{
    if n > 0 {
        lemma_fold_screen(events, cfg, (n - 1) as nat);
    }
}

proof fn lemma_fold_embeds(events: Seq<TraceEvent>, cfg: NormCfg, n: nat) -> (f: Seq<int>)
    requires
        n <= events.len(),
    ensures
        embeds(f, fold_prefix(events, cfg, n).actions, projection_prefix(events, cfg, n)),
    decreases n,
{
    if n == 0 {
        Seq::empty()
    } else {
        let m = (n - 1) as nat;
        let g = lemma_fold_embeds(events, cfg, m);
        lemma_fold_screen(events, cfg, m);
        let st = fold_prefix(events, cfg, m);
        let p = projection_prefix(events, cfg, m);
        let e = events[m as int];
        if e.kind is CommandExecuted {
            let a = command_action(st.screen, e, cfg);
            if is_burst(st, a, instant_ns(e), cfg) {
                g
            } else {
                let f = g.push(p.len() as int);
                assert forall|i: int| 0 <= i < f.len() implies 0 <= #[trigger] f[i] < p.push(a).len()
                    && st.actions.push(a)[i] == p.push(a)[f[i]] by {
                    if i < g.len() {
                        assert(f[i] == g[i]);
                    }
                }
                f
            }
        } else {
            g
        }
    }
}

/// A command is collapsed only into an equal action. At each command the
/// fold either appends the command's whole canonical action (screen in
/// focus, command id and abstracted arguments), or the action equals the
/// last one kept, the output stays as it was, and one more burst counts as
/// collapsed. So two adjacent commands with different abstracted
/// arguments both reach the output.
pub proof fn normalize_collapses_only_equal_actions(events: Seq<TraceEvent>, cfg: NormCfg, n: nat)
    requires
        n < events.len(),
        events[n as int].kind is CommandExecuted,
    ensures
        ({
            let before = fold_prefix(events, cfg, n);
            let after = fold_prefix(events, cfg, n + 1);
            let a = command_action(screen_at(events, n), events[n as int], cfg);
            (after.actions == before.actions.push(a) && after.collapsed == before.collapsed) || (
            before.actions.len() > 0 && before.actions.last() == a && after.actions == before.actions
                && after.collapsed == before.collapsed + 1)
        }),
{
    lemma_fold_screen(events, cfg, n);
}

/// How many of the first `n` events come more than the idle gap (in whole
/// milliseconds) after the event before them.
pub open spec fn long_gaps(events: Seq<TraceEvent>, cfg: NormCfg, n: nat) -> nat
    decreases n,
{
    if n <= 1 || n > events.len() {
        0
    } else {
        long_gaps(events, cfg, (n - 1) as nat) + if whole_ms(instant_ns(events[n - 1]) - instant_ns(events[n - 2]))
            > cfg.idle_gap_ms {
            1nat
        } else {
            0nat
        }
    }
}

proof fn lemma_pauses(events: Seq<TraceEvent>, cfg: NormCfg, n: nat)
    requires
        n <= events.len(),
    ensures
        fold_prefix(events, cfg, n).pauses == long_gaps(events, cfg, n),
        n > 0 ==> fold_prefix(events, cfg, n).last_ts == Some(instant_ns(events[n - 1])),
        n == 0 ==> fold_prefix(events, cfg, n).last_ts is None,
    decreases n,
{
    if n > 0 {
        lemma_pauses(events, cfg, (n - 1) as nat);
    }
}

/// The report's pause count is the number of consecutive event pairs more
/// than the idle gap apart, in whole milliseconds truncated toward zero.
pub proof fn pauses_count_long_gaps(events: Seq<TraceEvent>, cfg: NormCfg)
    ensures
        fold_events(events, cfg).pauses == long_gaps(events, cfg, events.len()),
{
    lemma_pauses(events, cfg, events.len());
}

/// The fold only removes actions from the projection: its output is an
/// in-order subsequence of the projection of every command.
pub proof fn normalize_output_is_subsequence_of_projection(events: Seq<TraceEvent>, cfg: NormCfg)
    ensures
        is_subsequence(fold_events(events, cfg).actions, projection(events, cfg)),
{
    let f = lemma_fold_embeds(events, cfg, events.len());
    assert(embeds(f, fold_events(events, cfg).actions, projection(events, cfg)));
}

proof fn lemma_zero_gap(events: Seq<TraceEvent>, cfg: NormCfg, n: nat)
    requires
        n <= events.len(),
        cfg.burst_gap_ms <= 0,
    ensures
        fold_prefix(events, cfg, n).actions == projection_prefix(events, cfg, n),
        fold_prefix(events, cfg, n).collapsed == 0,
    decreases n,
{
    if n > 0 {
        lemma_zero_gap(events, cfg, (n - 1) as nat);
        lemma_fold_screen(events, cfg, (n - 1) as nat);
    }
}

/// With the burst window disabled the fold is exactly the projection:
/// every command kept, in source order, nothing collapsed.
pub proof fn zero_burst_gap_yields_projection(events: Seq<TraceEvent>, cfg: NormCfg)
    requires
        cfg.burst_gap_ms <= 0,
    ensures
        fold_events(events, cfg).actions == projection(events, cfg),
        fold_events(events, cfg).collapsed == 0,
{
    lemma_zero_gap(events, cfg, events.len());
}

/// The two event sequences differ only by a constant shift of `d`
/// nanoseconds of every timestamp.
pub open spec fn shifted_by(events: Seq<TraceEvent>, shifted: Seq<TraceEvent>, d: int) -> bool {
    &&& shifted.len() == events.len()
    &&& forall|i: int|
        0 <= i < events.len() ==> kind_same(events[i].kind, #[trigger] shifted[i].kind)
            && instant_ns(shifted[i]) == instant_ns(events[i]) + d
}

proof fn lemma_shift(events: Seq<TraceEvent>, shifted: Seq<TraceEvent>, d: int, cfg: NormCfg, n: nat)
    requires
        shifted_by(events, shifted, d),
        n <= events.len(),
    ensures
        fold_prefix(shifted, cfg, n).screen == fold_prefix(events, cfg, n).screen,
        fold_prefix(shifted, cfg, n).actions == fold_prefix(events, cfg, n).actions,
        fold_prefix(shifted, cfg, n).input == fold_prefix(events, cfg, n).input,
        fold_prefix(shifted, cfg, n).collapsed == fold_prefix(events, cfg, n).collapsed,
        fold_prefix(shifted, cfg, n).dropped == fold_prefix(events, cfg, n).dropped,
        fold_prefix(shifted, cfg, n).pauses == fold_prefix(events, cfg, n).pauses,
        match fold_prefix(events, cfg, n).last_ts {
            Some(t) => fold_prefix(shifted, cfg, n).last_ts == Some(t + d),
            None => fold_prefix(shifted, cfg, n).last_ts is None,
        },
        match fold_prefix(events, cfg, n).last_action_ts {
            Some(t) => fold_prefix(shifted, cfg, n).last_action_ts == Some(t + d),
            None => fold_prefix(shifted, cfg, n).last_action_ts is None,
        },
    decreases n,
{
    if n > 0 {
        let m = (n - 1) as nat;
        lemma_shift(events, shifted, d, cfg, m);
        let e = events[m as int];
        let f = shifted[m as int];
        assert(kind_same(e.kind, f.kind));
        let st = fold_prefix(events, cfg, m);
        let su = fold_prefix(shifted, cfg, m);
        if e.kind is CommandExecuted {
            assert(command_action(st.screen, e, cfg) == command_action(su.screen, f, cfg));
        }
    }
}

/// Shifting every timestamp by the same amount changes neither the
/// scenario nor the report: temporal abstraction reads only differences.
pub proof fn normalize_is_time_shift_invariant(
    events: Seq<TraceEvent>,
    shifted: Seq<TraceEvent>,
    d: int,
    cfg: NormCfg,
)
    requires
        shifted_by(events, shifted, d),
    ensures
        fold_events(shifted, cfg).actions == fold_events(events, cfg).actions,
        fold_events(shifted, cfg).input == fold_events(events, cfg).input,
        fold_events(shifted, cfg).collapsed == fold_events(events, cfg).collapsed,
        fold_events(shifted, cfg).dropped == fold_events(events, cfg).dropped,
        fold_events(shifted, cfg).pauses == fold_events(events, cfg).pauses,
{
    lemma_shift(events, shifted, d, cfg, events.len());
}

/// Two events the fold cannot tell apart: same timestamp and kind, same
/// screen reached, and for commands the same command id and arguments of
/// the same abstraction; raw values within one abstraction class may
/// differ.
pub open spec fn class_equivalent(a: TraceEvent, b: TraceEvent, cfg: NormCfg) -> bool {
    instant_ns(a) == instant_ns(b) && match (a.kind, b.kind) {
        (
            TraceEventKind::CommandExecuted { command_id: c1, args: x1, .. },
            TraceEventKind::CommandExecuted { command_id: c2, args: x2, .. },
        ) => c1@ == c2@ && abstract_model(x1.model(), cfg.numeric_bucket_bounds@, cfg.overrides())
            == abstract_model(x2.model(), cfg.numeric_bucket_bounds@, cfg.overrides()),
        (TraceEventKind::ScreenOpened { screen_id: s1, .. }, TraceEventKind::ScreenOpened { screen_id: s2, .. }) => s1@
            == s2@,
        (TraceEventKind::NavigationOccurred { to: t1, .. }, TraceEventKind::NavigationOccurred { to: t2, .. }) => t1@
            == t2@,
        (TraceEventKind::FieldChanged { .. }, TraceEventKind::FieldChanged { .. }) => true,
        (TraceEventKind::ExceptionThrown { .. }, TraceEventKind::ExceptionThrown { .. }) => true,
        (TraceEventKind::ValidationFailed { .. }, TraceEventKind::ValidationFailed { .. }) => true,
        (
            TraceEventKind::AsyncOperationCompleted { .. },
            TraceEventKind::AsyncOperationCompleted { .. },
        ) => true,
        _ => false,
    }
}

proof fn lemma_class_equivalent(a: Seq<TraceEvent>, b: Seq<TraceEvent>, cfg: NormCfg, n: nat)
    requires
        a.len() == b.len(),
        forall|i: int| 0 <= i < a.len() ==> class_equivalent(#[trigger] a[i], b[i], cfg),
        n <= a.len(),
    ensures
        fold_prefix(a, cfg, n) == fold_prefix(b, cfg, n),
    decreases n,
{
    if n > 0 {
        lemma_class_equivalent(a, b, cfg, (n - 1) as nat);
        let e = a[n - 1];
        let f = b[n - 1];
        assert(class_equivalent(e, f, cfg));
        let st = fold_prefix(a, cfg, (n - 1) as nat);
        if e.kind is CommandExecuted {
            assert(command_action(st.screen, e, cfg) == command_action(st.screen, f, cfg));
        }
    }
}

/// Changing raw values within their abstraction class (same string class
/// and length bucket, same numeric bucket) changes neither the scenario
/// nor the report: no raw value reaches the output.
pub proof fn normalize_is_class_invariant(events: Seq<TraceEvent>, mutated: Seq<TraceEvent>, cfg: NormCfg)
    requires
        events.len() == mutated.len(),
        forall|i: int| 0 <= i < events.len() ==> class_equivalent(#[trigger] events[i], mutated[i], cfg),
    ensures
        fold_events(mutated, cfg) == fold_events(events, cfg),
{
    lemma_class_equivalent(events, mutated, cfg, events.len());
}

/// Two events alike but for command argument leaves, each changed within
/// its abstraction class (see [`same_class_leaves`]).
pub open spec fn leafwise_equivalent(a: TraceEvent, b: TraceEvent, cfg: NormCfg) -> bool {
    match (a.kind, b.kind) {
        (
            TraceEventKind::CommandExecuted { command_id: c1, args: x1, .. },
            TraceEventKind::CommandExecuted { command_id: c2, args: x2, .. },
        ) => instant_ns(a) == instant_ns(b) && c1@ == c2@ && same_class_leaves(
            x1.model(),
            x2.model(),
            cfg.numeric_bucket_bounds@,
            cfg.overrides(),
        ),
        _ => class_equivalent(a, b, cfg),
    }
}

/// Mutating each raw argument leaf within its class (a string to one of
/// the same format class and length bucket, a number to one in the same
/// bucket, booleans and null kept) changes neither the scenario nor the
/// report.
pub proof fn normalize_is_invariant_under_leaf_mutation(
    events: Seq<TraceEvent>,
    mutated: Seq<TraceEvent>,
    cfg: NormCfg,
)
    requires
        events.len() == mutated.len(),
        forall|i: int| 0 <= i < events.len() ==> leafwise_equivalent(#[trigger] events[i], mutated[i], cfg),
    ensures
        fold_events(mutated, cfg) == fold_events(events, cfg),
{
    assert forall|i: int| 0 <= i < events.len() implies class_equivalent(#[trigger] events[i], mutated[i], cfg) by {
        assert(leafwise_equivalent(events[i], mutated[i], cfg));
        if let TraceEventKind::CommandExecuted { args: x1, .. } = events[i].kind {
            if let TraceEventKind::CommandExecuted { args: x2, .. } = mutated[i].kind {
                same_class_leaves_abstract_alike(x1.model(), x2.model(), cfg.numeric_bucket_bounds@, cfg.overrides());
            }
        }
    }
    normalize_is_class_invariant(events, mutated, cfg);
}

proof fn lemma_fold_args_abstracted(events: Seq<TraceEvent>, cfg: NormCfg, n: nat)
    requires
        n <= events.len(),
    ensures
        forall|i: int|
            0 <= i < fold_prefix(events, cfg, n).actions.len() ==> exists|x: JsonModel|
                #[trigger] fold_prefix(events, cfg, n).actions[i].args == abstract_model(
                    x,
                    cfg.numeric_bucket_bounds@,
                    cfg.overrides(),
                ),
    decreases n,
{
    if n > 0 {
        let m = (n - 1) as nat;
        lemma_fold_args_abstracted(events, cfg, m);
        let st = fold_prefix(events, cfg, m);
        let e = events[m as int];
        match e.kind {
            TraceEventKind::CommandExecuted { args, .. } => {
                let a = command_action(st.screen, e, cfg);
                assert(a.args == abstract_model(args.model(), cfg.numeric_bucket_bounds@, cfg.overrides()));
                let acts = fold_prefix(events, cfg, n).actions;
                assert forall|i: int| 0 <= i < acts.len() implies exists|x: JsonModel|
                    #[trigger] acts[i].args == abstract_model(
                        x,
                        cfg.numeric_bucket_bounds@,
                        cfg.overrides(),
                    ) by {
                    if i < st.actions.len() {
                        assert(acts[i] == st.actions[i]);
                    } else {
                        assert(acts[i] == a);
                    }
                }
            },
            _ => {},
        }
    }
}

/// Every normalized action's arguments are fully abstracted:
/// re-abstracting them (under any tables) changes nothing.
pub proof fn normalized_args_are_fixed_points(
    events: Seq<TraceEvent>,
    cfg: NormCfg,
    bounds: Seq<i64>,
    overrides: Seq<(Seq<char>, Seq<i64>)>,
)
    ensures
        forall|i: int|
            0 <= i < fold_events(events, cfg).actions.len() ==> abstract_model(
                #[trigger] fold_events(events, cfg).actions[i].args,
                bounds,
                overrides,
            ) == fold_events(events, cfg).actions[i].args,
{
    lemma_fold_args_abstracted(events, cfg, events.len());
    let acts = fold_events(events, cfg).actions;
    assert forall|i: int| 0 <= i < acts.len() implies abstract_model(
        #[trigger] acts[i].args,
        bounds,
        overrides,
    ) == acts[i].args by {
        let x = choose|x: JsonModel|
            acts[i].args == abstract_model(x, cfg.numeric_bucket_bounds@, cfg.overrides());
        abstraction_is_idempotent(x, cfg.numeric_bucket_bounds@, cfg.overrides(), bounds, overrides);
    }
}

/// What a refold collapsed.
///
/// `input_actions == output_actions + collapsed_adjacent` always holds.
#[derive(Clone, Copy, Debug, PartialEq, Eq, Structural)]
pub struct RefoldReport {
    /// Actions in the input scenario.
    pub input_actions: usize,
    /// Actions surviving in the output scenario.
    pub output_actions: usize,
    /// Adjacent duplicates collapsed away.
    pub collapsed_adjacent: usize,
}

impl Default for RefoldReport {
    fn default() -> (r: Self)
        ensures
            r.input_actions == 0 && r.output_actions == 0 && r.collapsed_adjacent == 0,
    {
        RefoldReport { input_actions: 0, output_actions: 0, collapsed_adjacent: 0 }
    }
}

/// An action with its arguments abstracted again.
pub open spec fn reabstract(a: ActionModel, cfg: NormCfg) -> ActionModel {
    ActionModel {
        screen: a.screen,
        command: a.command,
        args: abstract_model(a.args, cfg.numeric_bucket_bounds@, cfg.overrides()),
    }
}

/// The state of a refold after a prefix of the actions.
pub struct RefoldState {
    pub out: Seq<ActionModel>,
    pub collapsed: nat,
}

/// The refold after the first `n` actions: each action re-abstracted, and
/// dropped when it equals the last kept one.
pub open spec fn refold_prefix(actions: Seq<ActionModel>, cfg: NormCfg, n: nat) -> RefoldState
    decreases n,
{
    if n == 0 || n > actions.len() {
        RefoldState { out: Seq::empty(), collapsed: 0 }
    } else {
        let st = refold_prefix(actions, cfg, (n - 1) as nat);
        let r = reabstract(actions[n - 1], cfg);
        if st.out.len() > 0 && st.out[st.out.len() - 1] == r {
            RefoldState { out: st.out, collapsed: st.collapsed + 1 }
        } else {
            RefoldState { out: st.out.push(r), collapsed: st.collapsed }
        }
    }
}

/// The refold of all actions.
pub open spec fn refold_model(actions: Seq<ActionModel>, cfg: NormCfg) -> RefoldState {
    refold_prefix(actions, cfg, actions.len())
}

proof fn lemma_refold_counts(actions: Seq<ActionModel>, cfg: NormCfg, n: nat)
    requires
        n <= actions.len(),
    ensures
        refold_prefix(actions, cfg, n).out.len() + refold_prefix(actions, cfg, n).collapsed == n,
    decreases n,
{
    if n > 0 {
        lemma_refold_counts(actions, cfg, (n - 1) as nat);
    }
}

/// Re-normalize a scenario, naming its loss: each action's arguments are
/// abstracted again and adjacent identical actions collapse; the report
/// counts every collapsed action.
#[verifier::loop_isolation(false)]
pub fn refold_with_report(scenario: &Scenario, cfg: &NormCfg) -> (r: (Scenario, RefoldReport))
    ensures
        r.0.model() == refold_model(scenario.model(), *cfg).out,
        r.1.input_actions == scenario.actions@.len(),
        r.1.output_actions == r.0.actions@.len(),
        r.1.collapsed_adjacent == refold_model(scenario.model(), *cfg).collapsed,
        r.1.input_actions == r.1.output_actions + r.1.collapsed_adjacent,
{
    let ghost acts = scenario.model();
    let mut out: Vec<CanonicalAction> = Vec::new();
    let mut report = RefoldReport::default();
    report.input_actions = scenario.actions.len();
    let mut i: usize = 0;
    while i < scenario.actions.len()
        invariant
            acts == scenario.model(),
            i <= scenario.actions@.len(),
            actions_model(out@) == refold_prefix(acts, *cfg, i as nat).out,
            report.collapsed_adjacent == refold_prefix(acts, *cfg, i as nat).collapsed,
            report.input_actions == scenario.actions@.len(),
            report.output_actions == 0,
        decreases scenario.actions@.len() - i,
    {
        proof {
            lemma_refold_counts(acts, *cfg, i as nat);
        }
        let action = &scenario.actions[i];
        let re = CanonicalAction {
            screen_id: action.screen_id.duplicate(),
            command_id: action.command_id.duplicate(),
            abstract_args: abstract_value(&action.abstract_args, cfg),
        };
        assert(re.model() == reabstract(acts[i as int], *cfg));
        let n = out.len();
        if n > 0 && out[n - 1].same(&re) {
            report.collapsed_adjacent += 1;
        } else {
            let ghost before = out@;
            out.push(re);
            assert(actions_model(out@) =~= actions_model(before).push(reabstract(acts[i as int], *cfg)));
        }
        i += 1;
    }
    proof {
        lemma_refold_counts(acts, *cfg, acts.len());
    }
    report.output_actions = out.len();
    (Scenario::new(out), report)
}

/// Re-normalize a scenario: re-abstract each action's arguments and
/// collapse adjacent identical actions (the report is discarded).
pub fn refold(scenario: &Scenario, cfg: &NormCfg) -> (r: Scenario)
    ensures
        r.model() == refold_model(scenario.model(), *cfg).out,
{
    refold_with_report(scenario, cfg).0
}

proof fn lemma_refold_shape(actions: Seq<ActionModel>, cfg: NormCfg, n: nat)
    requires
        n <= actions.len(),
    ensures
        forall|i: int|
            0 <= i < refold_prefix(actions, cfg, n).out.len() - 1 ==> #[trigger] refold_prefix(
                actions,
                cfg,
                n,
            ).out[i] != refold_prefix(actions, cfg, n).out[i + 1],
        forall|i: int|
            0 <= i < refold_prefix(actions, cfg, n).out.len() ==> exists|x: JsonModel|
                (#[trigger] refold_prefix(actions, cfg, n).out[i]).args == abstract_model(
                    x,
                    cfg.numeric_bucket_bounds@,
                    cfg.overrides(),
                ),
    decreases n,
{
    if n > 0 {
        let m = (n - 1) as nat;
        lemma_refold_shape(actions, cfg, m);
        let st = refold_prefix(actions, cfg, m);
        let r = reabstract(actions[m as int], cfg);
        let out = refold_prefix(actions, cfg, n).out;
        if !(st.out.len() > 0 && st.out[st.out.len() - 1] == r) {
            assert forall|i: int| 0 <= i < out.len() - 1 implies #[trigger] out[i] != out[i + 1] by {
                if i + 1 < st.out.len() {
                    assert(out[i] == st.out[i]);
                    assert(out[i + 1] == st.out[i + 1]);
                }
            }
            assert forall|i: int| 0 <= i < out.len() implies exists|x: JsonModel|
                (#[trigger] out[i]).args == abstract_model(
                    x,
                    cfg.numeric_bucket_bounds@,
                    cfg.overrides(),
                ) by {
                if i < st.out.len() {
                    assert(out[i] == st.out[i]);
                } else {
                    assert(out[i].args == abstract_model(
                        actions[m as int].args,
                        cfg.numeric_bucket_bounds@,
                        cfg.overrides(),
                    ));
                }
            }
        }
    }
}

proof fn lemma_refold_stable(rs: Seq<ActionModel>, cfg: NormCfg, n: nat)
    requires
        n <= rs.len(),
        forall|i: int| 0 <= i < rs.len() - 1 ==> #[trigger] rs[i] != rs[i + 1],
        forall|i: int| 0 <= i < rs.len() ==> reabstract(#[trigger] rs[i], cfg) == rs[i],
    ensures
        refold_prefix(rs, cfg, n).out == rs.subrange(0, n as int),
        refold_prefix(rs, cfg, n).collapsed == 0,
    decreases n,
{
    if n > 0 {
        let m = (n - 1) as nat;
        lemma_refold_stable(rs, cfg, m);
        assert(reabstract(rs[m as int], cfg) == rs[m as int]);
        if m > 0 {
            assert(rs[m - 1] != rs[m as int]);
        }
        assert(rs.subrange(0, m as int).push(rs[m as int]) =~= rs.subrange(0, n as int));
    }
}

/// Refolding is idempotent: refolding a refolded scenario changes nothing.
pub proof fn refold_is_idempotent(actions: Seq<ActionModel>, cfg: NormCfg)
    ensures
        refold_model(refold_model(actions, cfg).out, cfg).out == refold_model(actions, cfg).out,
        refold_model(refold_model(actions, cfg).out, cfg).collapsed == 0,
{
    let rs = refold_model(actions, cfg).out;
    lemma_refold_shape(actions, cfg, actions.len());
    assert forall|i: int| 0 <= i < rs.len() implies reabstract(#[trigger] rs[i], cfg) == rs[i] by {
        let x = choose|x: JsonModel|
            rs[i].args == abstract_model(x, cfg.numeric_bucket_bounds@, cfg.overrides());
        abstraction_is_idempotent(
            x,
            cfg.numeric_bucket_bounds@,
            cfg.overrides(),
            cfg.numeric_bucket_bounds@,
            cfg.overrides(),
        );
    }
    lemma_refold_stable(rs, cfg, rs.len());
    assert(rs.subrange(0, rs.len() as int) =~= rs);
}

} // verus!
