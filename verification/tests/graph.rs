//! The action graph, its exports, the heuristics miner, `PrefixSpan` and
//! the counting parts of the workflow report.

use semantx_trace::graph::action_graph::{from_scenarios, ActionGraph};
use semantx_trace::graph::export::{to_dot, to_mermaid};
use semantx_trace::graph::miner::HeuristicsMiner;
use semantx_trace::graph::prefixspan::{contains_as_subsequence, prefixspan, FrequentPattern};
use semantx_trace::graph::report::{error_session_matches, top_workflows, total_visits};
use semantx_trace::ids::{CommandId, ScreenId};
use semantx_trace::json::JsonValue;
use semantx_trace::scenario::{CanonicalAction, Scenario};

fn action(s: &str, c: &str) -> CanonicalAction {
    CanonicalAction {
        screen_id: ScreenId::new(s),
        command_id: CommandId::new(c),
        abstract_args: JsonValue::Object(Vec::new()),
    }
}

fn scenario(names: &[&str]) -> Scenario {
    Scenario::new(names.iter().map(|n| action("S", n)).collect())
}

fn find<'a>(patterns: &'a [FrequentPattern], seq: &[CanonicalAction]) -> Option<&'a FrequentPattern> {
    patterns.iter().find(|p| p.sequence.as_slice() == seq)
}

#[test]
fn empty_input_returns_empty() {
    let patterns = prefixspan(&[], 1);
    assert!(patterns.is_empty());
}

#[test]
fn single_element_sequence() {
    let a = action("S", "A");
    let seqs = vec![vec![action("S", "A")]];
    let patterns = prefixspan(&seqs, 1);
    assert!(patterns.iter().any(|p| p.sequence == vec![action("S", "A")]));
    assert_eq!(patterns.len(), 1);
    assert_eq!(find(&patterns, &[a]).unwrap().support, 1);
}

#[test]
fn support_is_accurate() {
    let a = action("S", "A");
    let b = action("S", "B");
    let seqs = vec![
        vec![action("S", "A"), action("S", "B")],
        vec![action("S", "A"), action("S", "B")],
        vec![action("S", "B")],
    ];
    let patterns = prefixspan(&seqs, 2);
    let ab = find(&patterns, &[a, b]);
    assert!(ab.is_some(), "expected pattern [a, b] with support 2");
    assert_eq!(ab.unwrap().support, 2);
}

#[test]
fn min_support_filters_rare_patterns() {
    let seqs = vec![vec![action("S", "A"), action("S", "B")], vec![action("S", "B")]];
    let patterns = prefixspan(&seqs, 2);
    assert!(patterns.iter().all(|p| p.support >= 2), "all patterns should have support >= 2");
}

#[test]
fn prefixspan_finds_every_frequent_pattern_once() {
    let a = action("S", "A");
    let b = action("S", "B");
    let c = action("S", "C");
    let seqs = vec![
        vec![a.clone(), b.clone(), c.clone()],
        vec![a.clone(), c.clone(), b.clone()],
        vec![b.clone(), c.clone()],
    ];
    let patterns = prefixspan(&seqs, 2);
    let expect: Vec<(Vec<CanonicalAction>, usize)> = vec![
        (vec![a.clone()], 2),
        (vec![b.clone()], 3),
        (vec![c.clone()], 3),
        (vec![a.clone(), b.clone()], 2),
        (vec![a.clone(), c.clone()], 2),
        (vec![b.clone(), c.clone()], 2),
    ];
    assert_eq!(patterns.len(), expect.len());
    for (seq, support) in expect {
        assert_eq!(find(&patterns, &seq).map(|p| p.support), Some(support), "pattern {seq:?}");
    }
    assert!(prefixspan(&seqs, 0).is_empty());
}

#[test]
fn prefixspan_supports_count_containing_sequences() {
    let seqs = vec![
        vec![action("S", "A"), action("S", "B"), action("S", "A")],
        vec![action("S", "B"), action("S", "A")],
        vec![action("S", "A")],
    ];
    for p in prefixspan(&seqs, 1) {
        let count = seqs.iter().filter(|s| contains_as_subsequence(s, &p.sequence)).count();
        assert_eq!(count, p.support, "{:?}", p.sequence);
    }
}

#[test]
fn subsequence_matching() {
    let s = vec![action("S", "A"), action("S", "X"), action("S", "B")];
    assert!(contains_as_subsequence(&s, &[]));
    assert!(contains_as_subsequence(&s, &[action("S", "A"), action("S", "B")]));
    assert!(!contains_as_subsequence(&s, &[action("S", "B"), action("S", "A")]));
    assert!(!contains_as_subsequence(&[], &[action("S", "A")]));
}

#[test]
fn graph_counts_nodes_visits_and_transitions() {
    let g = from_scenarios(&[scenario(&["A", "B", "A", "B"]), scenario(&["B", "A"])]);
    assert_eq!(g.node_count(), 2);
    assert_eq!(g.edge_count(), 2);
    let a = g.node_index(&action("S", "A")).unwrap();
    let b = g.node_index(&action("S", "B")).unwrap();
    assert_eq!((a, b), (0, 1));
    assert_eq!(g.node(a).visit_count, 3);
    assert_eq!(g.node(b).visit_count, 3);
    let (from, to, t) = g.transition(0);
    assert_eq!((from, to), (0, 1));
    assert_eq!(t.frequency, 2);
    assert_eq!(t.reverse_frequency, 2);
    assert_eq!(t.anomaly(), (5, 10));
    let (from, to, t) = g.transition(1);
    assert_eq!((from, to), (1, 0));
    assert_eq!(t.frequency, 2);
    assert!(g.node_index(&action("S", "C")).is_none());
}

#[test]
fn self_loops_score_by_frequency() {
    let g = from_scenarios(&[scenario(&["A", "A", "A"])]);
    assert_eq!(g.node_count(), 1);
    let (_, _, t) = g.transition(0);
    assert!(t.self_loop);
    assert_eq!(t.frequency, 2);
    assert_eq!(t.anomaly(), (1, 3));
}

#[test]
fn single_scenario_has_one_node_per_distinct_action() {
    let g = from_scenarios(&[scenario(&["A", "B", "C", "A"])]);
    assert_eq!(g.node_count(), 3);
    assert_eq!(g.edge_count(), 3);
    let empty = from_scenarios(&[]);
    assert_eq!(empty.node_count(), 0);
    assert_eq!(ActionGraph::new().edge_count(), 0);
}

#[test]
fn mermaid_and_dot_exports() {
    let g = from_scenarios(&[scenario(&["A", "B"]), scenario(&["A", "B"]), scenario(&["B", "C"])]);
    assert_eq!(
        to_mermaid(&g),
        "flowchart TD\n    N0[\"S:A\"]\n    N1[\"S:B\"]\n    N2[\"S:C\"]\n    N0 -->|\"freq=2\"| N1\n    N1 --> N2\n"
    );
    assert_eq!(
        to_dot(&g),
        "digraph ActionGraph {\n    node [shape=box];\n    N0 [label=\"S:A\"];\n    N1 [label=\"S:B\"];\n    N2 [label=\"S:C\"];\n    N0 -> N1 [label=\"freq=2\"];\n    N1 -> N2 [label=\"freq=1\"];\n}\n"
    );
    assert_eq!(to_mermaid(&ActionGraph::new()), "flowchart TD\n");
}

#[test]
fn most_frequent_path_follows_heaviest_edges() {
    let g = from_scenarios(&[
        scenario(&["A", "B", "C"]),
        scenario(&["A", "B", "C"]),
        scenario(&["A", "B", "D"]),
    ]);
    let path = HeuristicsMiner::most_frequent_path(&g);
    assert_eq!(path, vec![action("S", "A"), action("S", "B"), action("S", "C")]);
    assert!(HeuristicsMiner::most_frequent_path(&ActionGraph::new()).is_empty());
}

#[test]
fn most_frequent_path_in_a_cycle_stops() {
    let g = from_scenarios(&[scenario(&["A", "B", "A", "B"])]);
    let path = HeuristicsMiner::most_frequent_path(&g);
    assert_eq!(path, vec![action("S", "B"), action("S", "A"), action("S", "B")]);
}

#[test]
fn dependency_filter_keeps_nodes_and_selected_edges() {
    let g = from_scenarios(&[scenario(&["A", "B"]), scenario(&["A", "B"]), scenario(&["B", "C"])]);
    let mined = g.with_edges_where(2, &[true, true]);
    assert_eq!(mined.node_count(), 3);
    assert_eq!(mined.edge_count(), 1);
    let none = g.with_edges_where(1, &[false, false]);
    assert_eq!(none.edge_count(), 0);
    assert_eq!(none.node(2).visit_count, 1);
}

#[test]
fn top_workflows_sorted_by_support_stably() {
    let seqs = vec![
        vec![action("S", "A"), action("S", "B")],
        vec![action("S", "B")],
        vec![action("S", "A"), action("S", "B")],
    ];
    let patterns = prefixspan(&seqs, 1);
    let top = top_workflows(&patterns, 2);
    assert_eq!(top.len(), 2);
    assert_eq!(top[0].actions, vec![action("S", "B")]);
    assert_eq!(top[0].frequency, 3);
    assert_eq!(top[1].frequency, 2);
    assert_eq!(top_workflows(&patterns, 100).len(), patterns.len());
}

#[test]
fn error_session_matching_and_visit_totals() {
    let scenarios = vec![(1u128, scenario(&["A", "B"])), (2u128, scenario(&["A", "C", "B"])), (3u128, scenario(&["B"]))];
    let pattern = vec![action("S", "A"), action("S", "B")];
    assert_eq!(error_session_matches(&scenarios, &[2, 3], &pattern), 1);
    assert_eq!(error_session_matches(&scenarios, &[1, 2, 3], &pattern), 2);
    assert_eq!(error_session_matches(&scenarios, &[], &pattern), 0);
    let only: Vec<Scenario> = scenarios.into_iter().map(|(_, s)| s).collect();
    assert_eq!(total_visits(&from_scenarios(&only)), 6);
}

#[test]
fn corpus_edges_are_scored() {
    let g = from_scenarios(&[scenario(&["A", "B"])]);
    let (_, _, t) = g.transition(0);
    assert!(t.scored);
    assert_eq!(t.anomaly(), (1, 4));
}

#[test]
fn default_graph_is_empty() {
    let g = ActionGraph::default();
    assert_eq!(g.node_count(), 0);
    assert_eq!(g.edge_count(), 0);
}

#[test]
fn prefixspan_lists_each_pattern_once() {
    let a = action("S", "A");
    let b = action("S", "B");
    let seqs = vec![vec![a.clone(), b.clone(), a.clone()], vec![a.clone(), b.clone()], vec![b.clone(), a.clone()]];
    let patterns = prefixspan(&seqs, 1);
    for i in 0..patterns.len() {
        for j in (i + 1)..patterns.len() {
            assert_ne!(patterns[i].sequence, patterns[j].sequence);
        }
    }
    assert_eq!(prefixspan(&[vec![a.clone()]], 1).len(), 1);
}
