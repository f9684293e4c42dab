//! The counting parts of the workflow report: the top workflows, how
//! many error sessions contain a pattern, and the total of node visits.

use vstd::prelude::*;

use crate::graph::action_graph::ActionGraph;
use crate::graph::prefixspan::{contains_as_subsequence, FrequentPattern};
use crate::normalizer::fold::is_subsequence;
use crate::scenario::{actions_model, ActionModel, CanonicalAction, Scenario};

verus! {

/// A most-frequent workflow: an action sequence and the number of
/// sessions that contain it.
#[derive(Debug)]
pub struct TopWorkflow {
    /// The ordered actions of the workflow.
    pub actions: Vec<CanonicalAction>,
    /// Number of input sessions containing it as a subsequence.
    pub frequency: usize,
}

/// A pattern as the report sees it: its actions and its support.
pub open spec fn pattern_model(p: FrequentPattern) -> (Seq<ActionModel>, nat) {
    (actions_model(p.sequence@), p.support as nat)
}

/// `x` inserted into `s` after every element of support at least its own.
pub open spec fn insert_by_support(s: Seq<(Seq<ActionModel>, nat)>, x: (Seq<ActionModel>, nat)) -> Seq<
    (Seq<ActionModel>, nat),
>
    decreases s.len(),
{
    if s.len() == 0 {
        seq![x]
    } else if s.last().1 >= x.1 {
        s.push(x)
    } else {
        insert_by_support(s.drop_last(), x).push(s.last())
    }
}

/// The patterns sorted by descending support, patterns of equal support
/// kept in their order (a stable sort).
pub open spec fn by_support_desc(s: Seq<(Seq<ActionModel>, nat)>) -> Seq<(Seq<ActionModel>, nat)>
    decreases s.len(),
{
    if s.len() == 0 {
        Seq::empty()
    } else {
        insert_by_support(by_support_desc(s.drop_last()), s.last())
    }
}

/// The top `n` workflows among `patterns`.
pub open spec fn top_model(patterns: Seq<FrequentPattern>, n: nat) -> Seq<(Seq<ActionModel>, nat)> {
    let sorted = by_support_desc(patterns.map_values(|p: FrequentPattern| pattern_model(p)));
    if n < sorted.len() {
        sorted.subrange(0, n as int)
    } else {
        sorted
    }
}

proof fn lemma_insert_len(s: Seq<(Seq<ActionModel>, nat)>, x: (Seq<ActionModel>, nat))
    ensures
        insert_by_support(s, x).len() == s.len() + 1,
    decreases s.len(),
{
    if s.len() > 0 && s.last().1 < x.1 {
        lemma_insert_len(s.drop_last(), x);
    }
}

/// Inserts `x` into `v` (sorted by descending support) as
/// [`insert_by_support`] does.
fn insert_sorted(v: &mut Vec<(Vec<CanonicalAction>, usize)>, x: (Vec<CanonicalAction>, usize))
    ensures
        entries_model(final(v)@) == insert_by_support(entries_model(old(v)@), (actions_model(x.0@), x.1 as nat)),
{
    let ghost xm = (actions_model(x.0@), x.1 as nat);
    let mut pos: usize = v.len();
    assert(v@.subrange(0, pos as int) =~= v@);
    assert(entries_model(v@.subrange(pos as int, v@.len() as int)) =~= Seq::<(Seq<ActionModel>, nat)>::empty());
    assert(insert_by_support(entries_model(v@), xm) + Seq::<(Seq<ActionModel>, nat)>::empty() =~= insert_by_support(
        entries_model(v@),
        xm,
    ));
    while pos > 0 && v[pos - 1].1 < x.1
        invariant
            xm == (actions_model(x.0@), x.1 as nat),
            pos <= v@.len(),
            v@ == old(v)@,
            insert_by_support(entries_model(v@), xm) == insert_by_support(
                entries_model(v@.subrange(0, pos as int)),
                xm,
            ) + entries_model(v@.subrange(pos as int, v@.len() as int)),
        decreases pos,
    {
        proof {
            let pre = entries_model(v@.subrange(0, pos as int));
            assert(pre.drop_last() =~= entries_model(v@.subrange(0, pos - 1)));
            assert(pre.last() == entries_model(v@)[pos - 1]);
            assert(v@[pos - 1].1 < x.1);
            assert(xm.1 == x.1);
            assert(entries_model(v@)[pos - 1] == (actions_model(v@[pos - 1].0@), v@[pos - 1].1 as nat));
            assert(pre.last().1 < xm.1);
            assert(insert_by_support(pre, xm) == insert_by_support(pre.drop_last(), xm).push(pre.last()));
            assert(entries_model(v@.subrange(pos - 1, v@.len() as int)) =~= seq![pre.last()] + entries_model(
                v@.subrange(pos as int, v@.len() as int),
            ));
            assert(insert_by_support(entries_model(v@.subrange(0, pos - 1)), xm).push(pre.last()) + entries_model(
                v@.subrange(pos as int, v@.len() as int),
            ) =~= insert_by_support(entries_model(v@.subrange(0, pos - 1)), xm) + entries_model(
                v@.subrange(pos - 1, v@.len() as int),
            ));
        }
        pos -= 1;
    }
    proof {
        let pre = entries_model(v@.subrange(0, pos as int));
        if pos > 0 {
            assert(pre.last() == entries_model(v@)[pos - 1]);
        }
        assert(insert_by_support(pre, xm) =~= pre.push(xm)) by {
            if pos == 0 {
                assert(pre =~= Seq::<(Seq<ActionModel>, nat)>::empty());
            }
        }
        assert(entries_model(v@.subrange(0, v@.len() as int)) =~= entries_model(v@));
        assert(entries_model(v@.subrange(v@.len() as int, v@.len() as int)) =~= Seq::<(Seq<ActionModel>, nat)>::empty());
    }
    let ghost before = v@;
    v.insert(pos, x);
    proof {
        assert(entries_model(v@) =~= entries_model(before.subrange(0, pos as int)).push(xm) + entries_model(
            before.subrange(pos as int, before.len() as int),
        ));
    }
}

/// The models of (actions, support) entries.
pub open spec fn entries_model(v: Seq<(Vec<CanonicalAction>, usize)>) -> Seq<(Seq<ActionModel>, nat)> {
    v.map_values(|e: (Vec<CanonicalAction>, usize)| (actions_model(e.0@), e.1 as nat))
}

fn copy_actions(s: &Vec<CanonicalAction>) -> (r: Vec<CanonicalAction>)
    ensures
        actions_model(r@) == actions_model(s@),
{
    let mut out: Vec<CanonicalAction> = Vec::new();
    let mut i: usize = 0;
    while i < s.len()
        invariant
            i <= s@.len(),
            out@.len() == i,
            forall|j: int| 0 <= j < i ==> #[trigger] out@[j].model() == s@[j].model(),
        decreases s@.len() - i,
    {
        out.push(s[i].duplicate());
        i += 1;
    }
    assert(actions_model(out@) =~= actions_model(s@));
    out
}

/// The `top_n` most frequent workflows: patterns by descending support,
/// equal supports in their order.
pub fn top_workflows(patterns: &[FrequentPattern], top_n: usize) -> (r: Vec<TopWorkflow>)
    ensures
        r@.len() == top_model(patterns@, top_n as nat).len(),
        forall|i: int|
            0 <= i < r@.len() ==> (actions_model((#[trigger] r@[i]).actions@), r@[i].frequency as nat)
                == top_model(patterns@, top_n as nat)[i],
{
    let ghost pm = patterns@.map_values(|p: FrequentPattern| pattern_model(p));
    let mut sorted: Vec<(Vec<CanonicalAction>, usize)> = Vec::new();
    let mut i: usize = 0;
    assert(pm.subrange(0, 0) =~= Seq::<(Seq<ActionModel>, nat)>::empty());
    while i < patterns.len()
        invariant
            pm == patterns@.map_values(|p: FrequentPattern| pattern_model(p)),
            i <= patterns@.len(),
            entries_model(sorted@) == by_support_desc(pm.subrange(0, i as int)),
        decreases patterns@.len() - i,
    {
        let p = &patterns[i];
        let seq_copy = copy_actions(&p.sequence);
        insert_sorted(&mut sorted, (seq_copy, p.support));
        proof {
            assert(pm.subrange(0, i + 1).drop_last() =~= pm.subrange(0, i as int));
            assert(pm.subrange(0, i + 1).last() == pm[i as int]);
        }
        i += 1;
    }
    assert(pm.subrange(0, patterns@.len() as int) =~= pm);
    let ghost all = entries_model(sorted@);
    let take = if top_n < sorted.len() {
        top_n
    } else {
        sorted.len()
    };
    let mut out: Vec<TopWorkflow> = Vec::new();
    let mut k: usize = 0;
    while k < take
        invariant
            all == entries_model(sorted@),
            all == by_support_desc(pm),
            take <= sorted@.len(),
            k <= take,
            out@.len() == k,
            forall|j: int|
                0 <= j < k ==> (actions_model((#[trigger] out@[j]).actions@), out@[j].frequency as nat) == all[j],
        decreases take - k,
    {
        let actions = copy_actions(&sorted[k].0);
        out.push(TopWorkflow { actions, frequency: sorted[k].1 });
        proof {
            assert(all[k as int] == (actions_model(sorted@[k as int].0@), sorted@[k as int].1 as nat));
        }
        k += 1;
    }
    out
}

/// The number of the first `n` sessions that are error sessions and
/// contain `pattern`.
pub open spec fn failing_matches(
    scenarios: Seq<(u128, Scenario)>,
    error_sessions: Seq<u128>,
    pattern: Seq<ActionModel>,
    n: nat,
) -> nat
    decreases n,
{
    if n == 0 || n > scenarios.len() {
        0
    } else {
        failing_matches(scenarios, error_sessions, pattern, (n - 1) as nat) + if error_sessions.contains(
            scenarios[n - 1].0,
        ) && is_subsequence(pattern, scenarios[n - 1].1.model()) {
            1nat
        } else {
            0nat
        }
    }
}

fn contains_id(ids: &[u128], id: u128) -> (r: bool)
    ensures
        r == ids@.contains(id),
{
    let mut i: usize = 0;
    while i < ids.len()
        invariant
            i <= ids@.len(),
            forall|j: int| 0 <= j < i ==> ids@[j] != id,
        decreases ids@.len() - i,
    {
        if ids[i] == id {
            return true;
        }
        i += 1;
    }
    false
}

/// How many sessions are error sessions containing `pattern` as a
/// subsequence.
pub fn error_session_matches(
    scenarios: &[(u128, Scenario)],
    error_sessions: &[u128],
    pattern: &[CanonicalAction],
) -> (r: usize)
    ensures
        r == failing_matches(scenarios@, error_sessions@, actions_model(pattern@), scenarios@.len()),
{
    let mut count: usize = 0;
    let mut i: usize = 0;
    while i < scenarios.len()
        invariant
            i <= scenarios@.len(),
            count <= i,
            count == failing_matches(scenarios@, error_sessions@, actions_model(pattern@), i as nat),
        decreases scenarios@.len() - i,
    {
        let (sid, sc) = &scenarios[i];
        if contains_id(error_sessions, *sid) && contains_as_subsequence(sc.actions.as_slice(), pattern) {
            count += 1;
        }
        i += 1;
    }
    count
}

/// The sum of the visit counts of the first `n` nodes.
pub open spec fn visits_sum(visits: Seq<u64>, n: nat) -> nat
    decreases n,
{
    if n == 0 || n > visits.len() {
        0
    } else {
        visits_sum(visits, (n - 1) as nat) + visits[n - 1] as nat
    }
}

/// The total of the visit counts of all nodes.
pub fn total_visits(graph: &ActionGraph) -> (r: u128)
    ensures
        r == visits_sum(graph.visits(), graph.visits().len()),
{
    let n = graph.node_count();
    let mut total: u128 = 0;
    let mut i: usize = 0;
    while i < n
        invariant
            n == graph.visits().len(),
            n == graph.node_actions().len(),
            n < u32::MAX,
            i <= n,
            total == visits_sum(graph.visits(), i as nat),
            total <= i * 0x1_0000_0000_0000_0000,
        decreases n - i,
    {
        let w = graph.node(i).visit_count;
        total = total + w as u128;
        i += 1;
    }
    total
}

} // verus!
