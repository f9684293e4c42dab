//! The inductive miner and the process trees it discovers.

use semantx_trace::graph::cuts::sequence_cut;
use semantx_trace::graph::inductive::{text_less, ImdfConfig, InductiveMiner};
use semantx_trace::graph::process_tree::{tree_to_graph, ProcessTree};
use semantx_trace::ids::{CommandId, ScreenId};
use semantx_trace::json::JsonValue;
use semantx_trace::scenario::{CanonicalAction, Scenario};

fn make_scenario(actions: &[&str]) -> Scenario {
    let acts: Vec<CanonicalAction> = actions
        .iter()
        .map(|&cmd| CanonicalAction {
            screen_id: ScreenId::new("Screen"),
            command_id: CommandId::new(cmd),
            abstract_args: JsonValue::Object(Vec::new()),
        })
        .collect();
    Scenario::new(acts)
}

#[test]
fn single_activity_returns_leaf() {
    let scenarios = vec![make_scenario(&["A"])];
    let miner = InductiveMiner::default();
    let (graph, tree) = miner.mine(&scenarios);
    assert_eq!(graph.node_count(), 1);
    assert!(matches!(tree, ProcessTree::Activity(_)));
}

#[test]
fn sequence_discovered() {
    let scenarios = vec![make_scenario(&["A", "B", "C"]), make_scenario(&["A", "B", "C"])];
    let miner = InductiveMiner::default();
    let (_graph, tree) = miner.mine(&scenarios);
    assert!(matches!(tree, ProcessTree::Sequence(_)), "expected Sequence, got: {}", tree.display());
}

#[test]
fn xor_discovered_for_disjoint_traces() {
    let scenarios = vec![make_scenario(&["A"]), make_scenario(&["B"])];
    let miner = InductiveMiner::default();
    let (_graph, tree) = miner.mine(&scenarios);
    assert!(matches!(tree, ProcessTree::ExclusiveChoice(_)), "expected XOR, got: {}", tree.display());
}

#[test]
fn process_tree_display_smoke() {
    let scenarios = vec![make_scenario(&["A", "B"])];
    let miner = InductiveMiner::default();
    let (_graph, tree) = miner.mine(&scenarios);
    let _ = tree.display();
}

#[test]
fn sequence_renders_in_chain_order() {
    let scenarios = vec![make_scenario(&["C", "A", "B"]), make_scenario(&["C", "A", "B"])];
    let (graph, tree) = InductiveMiner::default().mine(&scenarios);
    assert_eq!(tree.display(), "→(C, A, B)");
    assert_eq!(graph.node_count(), 3);
    assert_eq!(graph.edge_count(), 2);
}

#[test]
fn choice_renders_branches_in_activity_order() {
    let scenarios = vec![make_scenario(&["B"]), make_scenario(&["A"])];
    let (graph, tree) = InductiveMiner::default().mine(&scenarios);
    assert_eq!(tree.display(), "×(A, B)");
    assert_eq!(graph.node_count(), 2);
    assert_eq!(graph.edge_count(), 0);
}

#[test]
fn loop_discovered_when_an_end_leads_back_to_a_start() {
    let scenarios = vec![make_scenario(&["A", "B"]), make_scenario(&["A", "B", "A", "B"])];
    let (graph, tree) = InductiveMiner::default().mine(&scenarios);
    assert_eq!(tree.display(), "↺(A, B)");
    assert_eq!(graph.node_count(), 2);
    assert_eq!(graph.edge_count(), 2);
}

#[test]
fn flower_when_no_cut_applies() {
    let scenarios = vec![make_scenario(&["A", "B", "A"])];
    let (graph, tree) = InductiveMiner::default().mine(&scenarios);
    assert_eq!(tree.display(), "flower(A, B)");
    assert_eq!(graph.edge_count(), 2);
}

#[test]
fn no_activities_give_tau() {
    let (graph, tree) = InductiveMiner::default().mine(&[]);
    assert!(matches!(tree, ProcessTree::Tau));
    assert_eq!(tree.display(), "τ");
    assert_eq!(graph.node_count(), 0);
}

#[test]
fn rare_pairs_below_the_threshold_are_ignored() {
    let scenarios = vec![make_scenario(&["A", "B"])];
    let miner = InductiveMiner::new(ImdfConfig { min_df_count: 2 });
    let (_graph, tree) = miner.mine(&scenarios);
    assert_eq!(tree.display(), "×(A, B)");
    let default = ImdfConfig::default();
    assert_eq!(default.min_df_count, 1);
}

#[test]
fn nested_sequence_inside_a_choice() {
    let scenarios = vec![make_scenario(&["A", "B"]), make_scenario(&["C"])];
    let (_graph, tree) = InductiveMiner::default().mine(&scenarios);
    assert_eq!(tree.display(), "×(→(A, B), C)");
}

#[test]
fn tree_graph_nodes_are_on_the_discovered_screen() {
    let tree = ProcessTree::Sequence(vec![
        ProcessTree::Activity("X".to_string()),
        ProcessTree::Flower(vec!["Y".to_string(), "Z".to_string()]),
    ]);
    let graph = tree_to_graph(&tree);
    assert_eq!(graph.node_count(), 3);
    // X→Y, X→Z from the sequence, Y→Z and Z→Y from the flower.
    assert_eq!(graph.edge_count(), 4);
    let node = graph.node(0);
    assert_eq!(node.action.screen_id.as_str(), "discovered");
    assert_eq!(node.action.command_id.as_str(), "X");
    assert_eq!(node.visit_count, 0);
    let (from, to, t) = graph.transition(0);
    assert_eq!((from, to), (1, 2));
    assert_eq!(t.frequency, 1);
    assert!(!t.scored);
    assert_eq!(t.anomaly(), (0, 1));
}

#[test]
fn leaves_and_edges_follow_the_structure() {
    let tree = ProcessTree::Loop {
        body: Box::new(ProcessTree::Activity("A".to_string())),
        redo: Box::new(ProcessTree::Tau),
    };
    assert_eq!(tree.display(), "↺(A, τ)");
    let names = tree.collect_leaf_names();
    assert_eq!(names, vec!["A".to_string()]);
    let (entries, exits, edges) = tree.collect_tree_edges();
    assert_eq!(entries, vec!["A".to_string()]);
    assert_eq!(exits, vec!["A".to_string()]);
    assert!(edges.is_empty());
}

#[test]
fn strings_order_by_characters() {
    assert!(text_less(&"Apply".to_string(), &"Save".to_string()));
    assert!(text_less(&"Save".to_string(), &"SaveAll".to_string()));
    assert!(!text_less(&"b".to_string(), &"B".to_string()));
    assert!(!text_less(&"Same".to_string(), &"Same".to_string()));
}

#[test]
fn every_activity_is_one_leaf() {
    let scenarios = vec![make_scenario(&["B", "A"]), make_scenario(&["C", "C"]), make_scenario(&["A", "B"])];
    let miner = InductiveMiner::default();
    let tree = miner.discover_tree(&scenarios);
    let mut names = tree.collect_leaf_names();
    names.sort();
    assert_eq!(names, vec!["A".to_string(), "B".to_string(), "C".to_string()]);
    assert!(semantx_trace::graph::inductive::fits_graph(&tree));
}

#[test]
fn duplicate_keeps_the_tree() {
    let scenarios = vec![make_scenario(&["A", "B"]), make_scenario(&["C"]), make_scenario(&["D", "E", "D"])];
    let tree = InductiveMiner::default().discover_tree(&scenarios);
    let copy = tree.duplicate();
    assert_eq!(copy.display(), tree.display());
    assert_eq!(tree.display(), "×(→(A, B), C, flower(D, E))");
}

#[test]
fn sequence_cut_needs_two_activities() {
    assert!(sequence_cut(&vec![vec![false]]).is_none());
    assert!(sequence_cut(&Vec::new()).is_none());
    assert_eq!(sequence_cut(&vec![vec![false, true], vec![false, false]]), Some(vec![0, 1]));
    assert!(sequence_cut(&vec![vec![false, true], vec![true, false]]).is_none());
}
