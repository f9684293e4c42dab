//! Corpus-level helpers of the command-line tool: event statistics,
//! grouping events into sessions, fold-report totals and the oracle's
//! exit code and text summary.

use vstd::prelude::*;

use crate::event::{TraceEvent, TraceEventKind};
use crate::ids::{uuid_text, SessionId};
use crate::normalizer::fold::FoldReport;
use crate::oracle::engine::{results_max_rank, results_model, SessionReport};
use crate::oracle::reporter::passed_count;
use crate::oracle::rule::{OracleResult, Severity};
use crate::text::{nat_text, push_nat};

verus! {

/// The stable label of an event kind.
pub open spec fn kind_label(kind: TraceEventKind) -> Seq<char> {
    match kind {
        TraceEventKind::ScreenOpened { .. } => "ScreenOpened"@,
        TraceEventKind::CommandExecuted { .. } => "CommandExecuted"@,
        TraceEventKind::FieldChanged { .. } => "FieldChanged"@,
        TraceEventKind::ExceptionThrown { .. } => "ExceptionThrown"@,
        TraceEventKind::NavigationOccurred { .. } => "NavigationOccurred"@,
        TraceEventKind::ValidationFailed { .. } => "ValidationFailed"@,
        TraceEventKind::AsyncOperationCompleted { .. } => "AsyncOperationCompleted"@,
    }
}

/// An event that counts toward the error rate: an exception, a
/// validation failure, or a command or asynchronous operation that did
/// not succeed.
pub open spec fn kind_is_error(kind: TraceEventKind) -> bool {
    match kind {
        TraceEventKind::ExceptionThrown { .. } => true,
        TraceEventKind::ValidationFailed { .. } => true,
        TraceEventKind::CommandExecuted { outcome, .. } => !(outcome is Success),
        TraceEventKind::AsyncOperationCompleted { outcome, .. } => !(outcome is Success),
        _ => false,
    }
}

/// The stable label of an event kind.
pub fn kind_name(kind: &TraceEventKind) -> (r: &'static str)
    ensures
        r@ == kind_label(*kind),
{
    match kind {
        TraceEventKind::ScreenOpened { .. } => "ScreenOpened",
        TraceEventKind::CommandExecuted { .. } => "CommandExecuted",
        TraceEventKind::FieldChanged { .. } => "FieldChanged",
        TraceEventKind::ExceptionThrown { .. } => "ExceptionThrown",
        TraceEventKind::NavigationOccurred { .. } => "NavigationOccurred",
        TraceEventKind::ValidationFailed { .. } => "ValidationFailed",
        TraceEventKind::AsyncOperationCompleted { .. } => "AsyncOperationCompleted",
    }
}

/// Whether an event counts toward the error rate.
pub fn is_error(kind: &TraceEventKind) -> (r: bool)
    ensures
        r == kind_is_error(*kind),
{
    match kind {
        TraceEventKind::ExceptionThrown { .. } => true,
        TraceEventKind::ValidationFailed { .. } => true,
        TraceEventKind::CommandExecuted { outcome, .. } => outcome.is_failure(),
        TraceEventKind::AsyncOperationCompleted { outcome, .. } => outcome.is_failure(),
        TraceEventKind::ScreenOpened { .. } => false,
        TraceEventKind::FieldChanged { .. } => false,
        TraceEventKind::NavigationOccurred { .. } => false,
    }
}

/// The kind labels in their stable (sorted) order.
pub open spec fn sorted_kind_labels() -> Seq<Seq<char>> {
    seq![
        "AsyncOperationCompleted"@,
        "CommandExecuted"@,
        "ExceptionThrown"@,
        "FieldChanged"@,
        "NavigationOccurred"@,
        "ScreenOpened"@,
        "ValidationFailed"@,
    ]
}

/// Number of events among the first `n` whose kind has label `label`.
pub open spec fn kind_count(events: Seq<TraceEvent>, label: Seq<char>, n: nat) -> nat
    decreases n,
{
    if n == 0 || n > events.len() {
        0
    } else {
        kind_count(events, label, (n - 1) as nat) + if kind_label(events[n - 1].kind) == label {
            1nat
        } else {
            0nat
        }
    }
}

/// Number of error events among the first `n`.
pub open spec fn error_count(events: Seq<TraceEvent>, n: nat) -> nat
    decreases n,
{
    if n == 0 || n > events.len() {
        0
    } else {
        error_count(events, (n - 1) as nat) + if kind_is_error(events[n - 1].kind) {
            1nat
        } else {
            0nat
        }
    }
}

proof fn lemma_error_count_prefix(events: Seq<TraceEvent>, e: TraceEvent, k: nat)
    requires
        k <= events.len(),
    ensures
        error_count(events.push(e), k) == error_count(events, k),
    decreases k,
{
    if k > 0 {
        lemma_error_count_prefix(events, e, (k - 1) as nat);
        assert(events.push(e)[k - 1] == events[k - 1]);
    }
}

/// A command or an asynchronous operation counts as an error exactly when
/// its outcome is not a success (a failure, a cancellation or a timeout);
/// an exception or a validation failure always counts; a screen opening, a
/// field change or a navigation never does. Appending an event to a
/// stream raises its error count by one exactly when the event counts.
pub proof fn errors_are_unsuccessful_outcomes(kind: TraceEventKind, events: Seq<TraceEvent>, e: TraceEvent)
    ensures
        kind matches TraceEventKind::CommandExecuted { outcome, .. } ==> (kind_is_error(kind) <==> !(
        outcome is Success)),
        kind matches TraceEventKind::AsyncOperationCompleted { outcome, .. } ==> (kind_is_error(kind) <==> !(
        outcome is Success)),
        kind is ExceptionThrown || kind is ValidationFailed ==> kind_is_error(kind),
        kind is ScreenOpened || kind is FieldChanged || kind is NavigationOccurred ==> !kind_is_error(kind),
        error_count(events.push(e), events.len() + 1) == error_count(events, events.len()) + if kind_is_error(
            e.kind,
        ) {
            1int
        } else {
            0int
        },
{
    lemma_error_count_prefix(events, e, events.len());
    assert(events.push(e)[events.len() as int] == e);
}

/// The distinct session ids among the first `n` events, in first-seen
/// order.
pub open spec fn sessions_seen(events: Seq<TraceEvent>, n: nat) -> Seq<SessionId>
    decreases n,
{
    if n == 0 || n > events.len() {
        Seq::empty()
    } else {
        let s = sessions_seen(events, (n - 1) as nat);
        if s.contains(events[n - 1].session_id) {
            s
        } else {
            s.push(events[n - 1].session_id)
        }
    }
}

/// The counting part of the summary of `trace analyze`.
#[derive(Debug)]
pub struct AnalyzeCounts {
    /// Distinct session ids seen.
    pub sessions: usize,
    /// Total events observed.
    pub events: usize,
    /// Events counted as errors.
    pub errors: usize,
    /// Count per event kind, by label in sorted order; kinds never seen
    /// are left out.
    pub per_kind: Vec<(String, usize)>,
}

/// The labels with a positive count among the first `n` sorted labels,
/// each with its count.
pub open spec fn per_kind_model(events: Seq<TraceEvent>, n: nat) -> Seq<(Seq<char>, nat)>
    decreases n,
{
    if n == 0 || n > 7 {
        Seq::empty()
    } else {
        let rest = per_kind_model(events, (n - 1) as nat);
        let l = sorted_kind_labels()[n - 1];
        let c = kind_count(events, l, events.len());
        if c > 0 {
            rest.push((l, c))
        } else {
            rest
        }
    }
}

proof fn lemma_labels_distinct()
    ensures
        forall|a: int, b: int| 0 <= a < b < 7 ==> #[trigger] sorted_kind_labels()[a] != #[trigger] sorted_kind_labels()[b],
{
    reveal_strlit("AsyncOperationCompleted");
    reveal_strlit("CommandExecuted");
    reveal_strlit("ExceptionThrown");
    reveal_strlit("FieldChanged");
    reveal_strlit("NavigationOccurred");
    reveal_strlit("ScreenOpened");
    reveal_strlit("ValidationFailed");
    let l = sorted_kind_labels();
    assert(l[0][0] == 'A');
    assert(l[1][0] == 'C');
    assert(l[2][0] == 'E');
    assert(l[3][0] == 'F');
    assert(l[4][0] == 'N');
    assert(l[5][0] == 'S');
    assert(l[6][0] == 'V');
}

proof fn lemma_kind_count_bound(events: Seq<TraceEvent>, label: Seq<char>, n: nat)
    ensures
        kind_count(events, label, n) <= n,
    decreases n,
{
    if n > 0 {
        lemma_kind_count_bound(events, label, (n - 1) as nat);
    }
}

fn sessions_contains(seen: &Vec<u128>, id: u128) -> (r: bool)
    ensures
        r == seen@.contains(id),
{
    let mut i: usize = 0;
    while i < seen.len()
        invariant
            i <= seen@.len(),
            forall|j: int| 0 <= j < i ==> seen@[j] != id,
        decreases seen@.len() - i,
    {
        if seen[i] == id {
            return true;
        }
        i += 1;
    }
    false
}

/// Count sessions, events, errors and events per kind.
pub fn analyze_events(events: &[TraceEvent]) -> (r: AnalyzeCounts)
    ensures
        r.events == events@.len(),
        r.errors == error_count(events@, events@.len()),
        r.sessions == sessions_seen(events@, events@.len()).len(),
        r.per_kind@.len() == per_kind_model(events@, 7).len(),
        forall|i: int|
            0 <= i < r.per_kind@.len() ==> (#[trigger] r.per_kind@[i]).0@ == per_kind_model(events@, 7)[i].0
                && r.per_kind@[i].1 == per_kind_model(events@, 7)[i].1,
{
    let n = events.len();
    let mut seen: Vec<u128> = Vec::new();
    let mut counts: Vec<usize> = vec![0, 0, 0, 0, 0, 0, 0];
    let mut errors: usize = 0;
    let mut i: usize = 0;
    let ghost labels = sorted_kind_labels();
    proof {
        reveal_strlit("AsyncOperationCompleted");
    }
    while i < n
        invariant
            n == events@.len(),
            labels == sorted_kind_labels(),
            i <= n,
            errors == error_count(events@, i as nat),
            errors <= i,
            seen@.len() == sessions_seen(events@, i as nat).len(),
            forall|j: int| 0 <= j < seen@.len() ==> seen@[j] == (#[trigger] sessions_seen(events@, i as nat)[j]).0,
            seen@.len() <= i,
            counts@.len() == 7,
            forall|k: int| 0 <= k < 7 ==> #[trigger] counts@[k] == kind_count(events@, labels[k], i as nat),
            forall|k: int| 0 <= k < 7 ==> counts@[k] <= i,
        decreases n - i,
    {
        let e = &events[i];
        let ghost prev = sessions_seen(events@, i as nat);
        if !sessions_contains(&seen, e.session_id.0) {
            seen.push(e.session_id.0);
            proof {
                if prev.contains(e.session_id) {
                    let j = choose|j: int| 0 <= j < prev.len() && prev[j] == e.session_id;
                    assert(seen@[j] == prev[j].0);
                }
            }
        } else {
            proof {
                let j = choose|j: int| 0 <= j < seen@.len() && seen@[j] == e.session_id.0;
                assert(prev[j].0 == e.session_id.0);
                assert(prev[j] == e.session_id);
            }
        }
        let slot: usize = match &e.kind {
            TraceEventKind::AsyncOperationCompleted { .. } => 0,
            TraceEventKind::CommandExecuted { .. } => 1,
            TraceEventKind::ExceptionThrown { .. } => 2,
            TraceEventKind::FieldChanged { .. } => 3,
            TraceEventKind::NavigationOccurred { .. } => 4,
            TraceEventKind::ScreenOpened { .. } => 5,
            TraceEventKind::ValidationFailed { .. } => 6,
        };
        proof {
            assert(kind_label(e.kind) == labels[slot as int]);
            lemma_labels_distinct();
        }
        let c = counts[slot];
        counts.set(slot, c + 1);
        if is_error(&e.kind) {
            errors += 1;
        }
        i += 1;
    }
    let mut per_kind: Vec<(String, usize)> = Vec::new();
    let names: [&str; 7] = [
        "AsyncOperationCompleted",
        "CommandExecuted",
        "ExceptionThrown",
        "FieldChanged",
        "NavigationOccurred",
        "ScreenOpened",
        "ValidationFailed",
    ];
    let mut k: usize = 0;
    while k < 7
        invariant
            n == events@.len(),
            labels == sorted_kind_labels(),
            counts@.len() == 7,
            forall|q: int| 0 <= q < 7 ==> #[trigger] counts@[q] == kind_count(events@, labels[q], n as nat),
            names@.len() == 7,
            forall|q: int| 0 <= q < 7 ==> (#[trigger] names@[q])@ == labels[q],
            k <= 7,
            per_kind@.len() == per_kind_model(events@, k as nat).len(),
            forall|q: int|
                0 <= q < per_kind@.len() ==> (#[trigger] per_kind@[q]).0@ == per_kind_model(events@, k as nat)[q].0
                    && per_kind@[q].1 == per_kind_model(events@, k as nat)[q].1,
        decreases 7 - k,
    {
        let ghost before = per_kind@;
        proof {
            assert(per_kind_model(events@, (k + 1) as nat) == (if kind_count(events@, labels[k as int], events@.len())
                > 0 {
                per_kind_model(events@, k as nat).push((labels[k as int], kind_count(events@, labels[k as int], events@.len())))
            } else {
                per_kind_model(events@, k as nat)
            }));
        }
        if counts[k] > 0 {
            let name = names[k].to_owned();
            per_kind.push((name, counts[k]));
            proof {
                assert forall|q: int| 0 <= q < per_kind@.len() implies (#[trigger] per_kind@[q]).0@ == per_kind_model(
                    events@,
                    (k + 1) as nat,
                )[q].0 && per_kind@[q].1 == per_kind_model(events@, (k + 1) as nat)[q].1 by {
                    if q < before.len() {
                        assert(per_kind@[q] == before[q]);
                    }
                }
            }
        }
        k += 1;
    }
    AnalyzeCounts { sessions: seen.len(), events: n, errors, per_kind }
}

/// The events among the first `n` that belong to session `id`, in order.
pub open spec fn group_upto(events: Seq<TraceEvent>, id: SessionId, n: nat) -> Seq<TraceEvent>
    decreases n,
{
    if n == 0 || n > events.len() {
        Seq::empty()
    } else {
        let g = group_upto(events, id, (n - 1) as nat);
        if events[n - 1].session_id == id {
            g.push(events[n - 1])
        } else {
            g
        }
    }
}

fn position_of(ids: &Vec<SessionId>, id: SessionId) -> (r: Option<usize>)
    ensures
        r matches Some(g) ==> g < ids@.len() && ids@[g as int] == id,
        r is None ==> !ids@.contains(id),
{
    let mut g: usize = 0;
    while g < ids.len()
        invariant
            g <= ids@.len(),
            forall|j: int| 0 <= j < g ==> ids@[j] != id,
        decreases ids@.len() - g,
    {
        if ids[g].0 == id.0 {
            return Some(g);
        }
        g += 1;
    }
    None
}

/// Group events by session id: sessions in first-seen order, each with
/// its events in their original order.
pub fn group_by_session(events: Vec<TraceEvent>) -> (r: Vec<(SessionId, Vec<TraceEvent>)>)
    ensures
        r@.len() == sessions_seen(events@, events@.len()).len(),
        forall|i: int|
            0 <= i < r@.len() ==> (#[trigger] r@[i]).0 == sessions_seen(events@, events@.len())[i] && r@[i].1@
                == group_upto(events@, r@[i].0, events@.len()),
{
    let ghost all = events@;
    let n = events.len();
    let mut src = events;
    let mut rev: Vec<TraceEvent> = Vec::new();
    while src.len() > 0
        invariant
            all.len() == n,
            src@ == all.subrange(0, src@.len() as int),
            rev@.len() + src@.len() == n,
            forall|k: int| 0 <= k < rev@.len() ==> #[trigger] rev@[k] == all[n - 1 - k],
        decreases src@.len(),
    {
        let ghost m = src@.len();
        let e = src.pop().unwrap();
        rev.push(e);
        proof {
            assert(src@ =~= all.subrange(0, m - 1));
        }
    }
    let mut ids: Vec<SessionId> = Vec::new();
    let mut lists: Vec<Vec<TraceEvent>> = Vec::new();
    let mut i: usize = 0;
    while rev.len() > 0
        invariant
            all.len() == n,
            i + rev@.len() == n,
            forall|k: int| 0 <= k < rev@.len() ==> #[trigger] rev@[k] == all[n - 1 - k],
            ids@ == sessions_seen(all, i as nat),
            lists@.len() == ids@.len(),
            forall|g: int| 0 <= g < ids@.len() ==> (#[trigger] lists@[g])@ == group_upto(all, ids@[g], i as nat),
        decreases rev@.len(),
    {
        let ghost m = rev@.len();
        let e = rev.pop().unwrap();
        let ghost ev = all[i as int];
        assert(e == ev);
        let ghost before_lists = lists@;
        match position_of(&ids, e.session_id) {
            Some(g) => {
                let mut l = lists.remove(g);
                l.push(e);
                lists.insert(g, l);
                proof {
                    assert forall|h: int| 0 <= h < ids@.len() implies (#[trigger] lists@[h])@ == group_upto(
                        all,
                        ids@[h],
                        (i + 1) as nat,
                    ) by {
                        if h != g {
                            assert(lists@[h] == before_lists[h]);
                            assert(ids@[h] != ev.session_id) by {
                                lemma_seen_distinct(all, i as nat);
                            }
                        }
                    }
                }
            },
            None => {
                let sid = e.session_id;
                let mut l: Vec<TraceEvent> = Vec::new();
                l.push(e);
                ids.push(sid);
                lists.push(l);
                proof {
                    assert forall|h: int| 0 <= h < ids@.len() implies (#[trigger] lists@[h])@ == group_upto(
                        all,
                        ids@[h],
                        (i + 1) as nat,
                    ) by {
                        if h < ids@.len() - 1 {
                            assert(lists@[h] == before_lists[h]);
                            assert(ids@[h] != sid);
                        } else {
                            lemma_group_empty(all, sid, i as nat);
                            assert(l@ =~= Seq::<TraceEvent>::empty().push(ev));
                        }
                    }
                }
            },
        }
        i += 1;
    }
    let mut out: Vec<(SessionId, Vec<TraceEvent>)> = Vec::new();
    let total = ids.len();
    let mut k: usize = 0;
    while k < total
        invariant
            all.len() == n,
            total == sessions_seen(all, n as nat).len(),
            k <= total,
            ids@ == sessions_seen(all, n as nat),
            lists@.len() + k == total,
            forall|g: int| 0 <= g < lists@.len() ==> (#[trigger] lists@[g])@ == group_upto(all, ids@[g + k], n as nat),
            out@.len() == k,
            forall|g: int| 0 <= g < k ==> (#[trigger] out@[g]).0 == ids@[g] && out@[g].1@ == group_upto(all, out@[g].0, n as nat),
        decreases total - k,
    {
        let ghost before = lists@;
        let l = lists.remove(0);
        out.push((ids[k], l));
        proof {
            assert forall|g: int| 0 <= g < lists@.len() implies (#[trigger] lists@[g])@ == group_upto(
                all,
                ids@[g + k + 1],
                n as nat,
            ) by {
                assert(lists@[g] == before[g + 1]);
            }
        }
        k += 1;
    }
    out
}

proof fn lemma_seen_distinct(events: Seq<TraceEvent>, n: nat)
    ensures
        forall|a: int, b: int|
            0 <= a < b < sessions_seen(events, n).len() ==> #[trigger] sessions_seen(events, n)[a]
                != #[trigger] sessions_seen(events, n)[b],
    decreases n,
{
    if n > 0 && n <= events.len() {
        lemma_seen_distinct(events, (n - 1) as nat);
        let s = sessions_seen(events, (n - 1) as nat);
        if !s.contains(events[n - 1].session_id) {
            let t = s.push(events[n - 1].session_id);
            assert forall|a: int, b: int| 0 <= a < b < t.len() implies #[trigger] t[a] != #[trigger] t[b] by {
                if b == s.len() {
                    assert(s[a] == t[a]);
                    assert(s.contains(t[a]));
                } else {
                    assert(s[a] == t[a]);
                    assert(s[b] == t[b]);
                }
            }
        }
    }
}

proof fn lemma_group_empty(events: Seq<TraceEvent>, id: SessionId, n: nat)
    requires
        !sessions_seen(events, n).contains(id),
        n <= events.len(),
    ensures
        group_upto(events, id, n) == Seq::<TraceEvent>::empty(),
    decreases n,
{
    if n > 0 {
        let s = sessions_seen(events, (n - 1) as nat);
        if s.contains(id) {
            let j = choose|j: int| 0 <= j < s.len() && s[j] == id;
            if !s.contains(events[n - 1].session_id) {
                assert(s.push(events[n - 1].session_id)[j] == id);
            }
        }
        lemma_group_empty(events, id, (n - 1) as nat);
        if events[n - 1].session_id == id {
            if s.contains(id) {
            } else {
                assert(s.push(id)[s.len() as int] == id);
            }
        }
    }
}

/// Add a fold report into running totals.
pub fn accumulate(totals: &mut FoldReport, rep: FoldReport)
    requires
        old(totals).input_events + rep.input_events <= usize::MAX,
        old(totals).output_actions + rep.output_actions <= usize::MAX,
        old(totals).collapsed_bursts + rep.collapsed_bursts <= usize::MAX,
        old(totals).dropped_noise + rep.dropped_noise <= usize::MAX,
        old(totals).session_pauses + rep.session_pauses <= usize::MAX,
    ensures
        final(totals).input_events == old(totals).input_events + rep.input_events,
        final(totals).output_actions == old(totals).output_actions + rep.output_actions,
        final(totals).collapsed_bursts == old(totals).collapsed_bursts + rep.collapsed_bursts,
        final(totals).dropped_noise == old(totals).dropped_noise + rep.dropped_noise,
        final(totals).session_pauses == old(totals).session_pauses + rep.session_pauses,
{
    totals.input_events = totals.input_events + rep.input_events;
    totals.output_actions = totals.output_actions + rep.output_actions;
    totals.collapsed_bursts = totals.collapsed_bursts + rep.collapsed_bursts;
    totals.dropped_noise = totals.dropped_noise + rep.dropped_noise;
    totals.session_pauses = totals.session_pauses + rep.session_pauses;
}

/// The exit code of `trace oracle run`: 2 when some violation is
/// critical, 1 when there is another violation, 0 when there is none.
pub open spec fn exit_code_of(reports: Seq<SessionReport>) -> u8 {
    if exists|i: int| 0 <= i < reports.len() && results_max_rank(results_model((#[trigger] reports[i]).results@)) == 2 {
        2
    } else if exists|i: int| 0 <= i < reports.len() && results_max_rank(results_model((#[trigger] reports[i]).results@)) >= 0 {
        1
    } else {
        0
    }
}

/// The exit code of `trace oracle run` (see [`exit_code_of`]).
pub fn oracle_exit_code(reports: &[SessionReport]) -> (r: u8)
    ensures
        r == exit_code_of(reports@),
{
    let mut worst: u8 = 0;
    let mut i: usize = 0;
    while i < reports.len()
        invariant
            i <= reports@.len(),
            worst == (if exists|j: int| 0 <= j < i && results_max_rank(results_model((#[trigger] reports@[j]).results@)) == 2 {
                2u8
            } else if exists|j: int| 0 <= j < i && results_max_rank(results_model((#[trigger] reports@[j]).results@)) >= 0 {
                1u8
            } else {
                0u8
            }),
        decreases reports@.len() - i,
    {
        match reports[i].max_severity() {
            Some(Severity::Critical) => {
                worst = 2;
            },
            Some(_) => {
                if worst < 1 {
                    worst = 1;
                }
            },
            None => {},
        }
        proof {
            crate::oracle::engine::lemma_results_max_rank_bounds(results_model(reports@[i as int].results@));
        }
        i += 1;
    }
    worst
}

/// The debug name of a severity.
pub open spec fn severity_name(s: Severity) -> Seq<char> {
    match s {
        Severity::Warning => "Warning"@,
        Severity::Error => "Error"@,
        Severity::Critical => "Critical"@,
    }
}

/// The lines of the first `n` violations of a result.
pub open spec fn violation_lines(r: OracleResult, n: nat) -> Seq<char>
    decreases n,
{
    if n == 0 || n > r.violations@.len() {
        Seq::empty()
    } else {
        let v = r.violations@[n - 1];
        violation_lines(r, (n - 1) as nat) + "       "@ + severity_name(v.severity) + ": "@ + v.message@
            + "\n"@
    }
}

/// The lines of one result: its status, session and rule, then one line
/// per violation.
pub open spec fn result_lines(sid: Seq<char>, r: OracleResult) -> Seq<char> {
    "  ["@ + (if r.passed {
        "PASS"@
    } else {
        "FAIL"@
    }) + "] session="@ + sid + " rule="@ + r.rule@ + "\n"@ + violation_lines(r, r.violations@.len())
}

/// The lines of the first `n` results of a report.
pub open spec fn report_lines(rep: SessionReport, n: nat) -> Seq<char>
    decreases n,
{
    if n == 0 || n > rep.results@.len() {
        Seq::empty()
    } else {
        report_lines(rep, (n - 1) as nat) + result_lines(uuid_text(rep.session_id.0), rep.results@[n - 1])
    }
}

/// The lines of the first `n` reports.
pub open spec fn reports_lines(reports: Seq<SessionReport>, n: nat) -> Seq<char>
    decreases n,
{
    if n == 0 || n > reports.len() {
        Seq::empty()
    } else {
        reports_lines(reports, (n - 1) as nat) + report_lines(reports[n - 1], reports[n - 1].results@.len())
    }
}

/// The text summary of `trace oracle run`.
pub open spec fn summary_of(reports: Seq<SessionReport>) -> Seq<char> {
    let total = reports.len();
    let passed = passed_count(reports, total);
    "sessions: "@ + nat_text(total) + "  passed: "@ + nat_text(passed) + "  failed: "@ + nat_text(
        (total - passed) as nat,
    ) + "\n"@ + reports_lines(reports, total)
}

fn severity_debug(s: Severity) -> (r: &'static str)
    ensures
        r@ == severity_name(s),
{
    match s {
        Severity::Warning => "Warning",
        Severity::Error => "Error",
        Severity::Critical => "Critical",
    }
}

fn push_result_lines(out: &mut String, sid: &str, res: &OracleResult)
    ensures
        final(out)@ == old(out)@ + result_lines(sid@, *res),
{
    out.append("  [");
    if res.passed {
        out.append("PASS");
    } else {
        out.append("FAIL");
    }
    out.append("] session=");
    out.append(sid);
    out.append(" rule=");
    out.append(res.rule.as_str());
    out.append("\n");
    let ghost vstart = out@;
    let mut q: usize = 0;
    while q < res.violations.len()
        invariant
            q <= res.violations@.len(),
            out@ == vstart + violation_lines(*res, q as nat),
        decreases res.violations@.len() - q,
    {
        let v = &res.violations[q];
        out.append("       ");
        out.append(severity_debug(v.severity));
        out.append(": ");
        out.append(v.message.as_str());
        out.append("\n");
        q += 1;
    }
}

/// The text summary of `trace oracle run`: totals, then one line per
/// result and one per violation.
pub fn text_summary(reports: &[SessionReport]) -> (r: String)
    ensures
        r@ == summary_of(reports@),
{
    let total = reports.len();
    let mut passed: usize = 0;
    let mut i: usize = 0;
    while i < total
        invariant
            total == reports@.len(),
            i <= total,
            passed == passed_count(reports@, i as nat),
            passed <= i,
        decreases total - i,
    {
        if reports[i].all_passed() {
            passed += 1;
        }
        i += 1;
    }
    let mut out = String::new();
    out.append("sessions: ");
    push_nat(&mut out, total as u64);
    out.append("  passed: ");
    push_nat(&mut out, passed as u64);
    out.append("  failed: ");
    push_nat(&mut out, (total - passed) as u64);
    out.append("\n");
    let ghost head = out@;
    let mut k: usize = 0;
    while k < total
        invariant
            total == reports@.len(),
            k <= total,
            out@ == head + reports_lines(reports@, k as nat),
        decreases total - k,
    {
        let rep = &reports[k];
        let sid = rep.session_id.to_string();
        let ghost start = out@;
        let mut j: usize = 0;
        while j < rep.results.len()
            invariant
                j <= rep.results@.len(),
                sid@ == uuid_text(rep.session_id.0),
                out@ == start + report_lines(*rep, j as nat),
            decreases rep.results@.len() - j,
        {
            push_result_lines(&mut out, sid.as_str(), &rep.results[j]);
            j += 1;
        }
        k += 1;
    }
    out
}

} // verus!
