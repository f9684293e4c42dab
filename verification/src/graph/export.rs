//! Graph exporters: Mermaid flowchart and Graphviz DOT.

use vstd::prelude::*;
use vstd::relations::{sorted_by, total_ordering};

use crate::graph::action_graph::ActionGraph;
use crate::scenario::ActionModel;
use crate::text::{nat_text, push_nat};

verus! {

/// `a <= b` on counts.
pub open spec fn ascending() -> spec_fn(u64, u64) -> bool {
    |a: u64, b: u64| a <= b
}

/// The position of the 80th percentile among `n` sorted values.
pub open spec fn p80_index(n: nat) -> int {
    if n * 4 / 5 < n - 1 {
        (n * 4 / 5) as int
    } else {
        n - 1
    }
}

/// The 80th-percentile of `freqs` (1 when there are none).
pub open spec fn p80_of(freqs: Seq<u64>) -> u64 {
    if freqs.len() == 0 {
        1
    } else {
        freqs.sort_by(ascending())[p80_index(freqs.len())]
    }
}

/// The forward frequencies of the edges, by edge index.
pub open spec fn edge_frequencies(edges: Seq<(usize, usize, (u64, u64))>) -> Seq<u64> {
    edges.map_values(|e: (usize, usize, (u64, u64))| e.2.0)
}

/// The label of a node: `screen:command`.
pub open spec fn node_label(a: ActionModel) -> Seq<char> {
    a.screen + ":"@ + a.command
}

/// Mermaid lines of the first `n` nodes.
pub open spec fn mermaid_nodes(actions: Seq<ActionModel>, n: nat) -> Seq<char>
    decreases n,
{
    if n == 0 || n > actions.len() {
        Seq::empty()
    } else {
        mermaid_nodes(actions, (n - 1) as nat) + "    N"@ + nat_text((n - 1) as nat) + "[\""@
            + node_label(actions[n - 1]) + "\"]\n"@
    }
}

/// Mermaid lines of the first `n` edges; edges at or above `p80` carry
/// their frequency.
pub open spec fn mermaid_edges(edges: Seq<(usize, usize, (u64, u64))>, p80: u64, n: nat) -> Seq<char>
    decreases n,
{
    if n == 0 || n > edges.len() {
        Seq::empty()
    } else {
        let e = edges[n - 1];
        mermaid_edges(edges, p80, (n - 1) as nat) + "    N"@ + nat_text(e.0 as nat) + (if e.2.0
            >= p80 {
            " -->|\"freq="@ + nat_text(e.2.0 as nat) + "\"| N"@
        } else {
            " --> N"@
        }) + nat_text(e.1 as nat) + "\n"@
    }
}

/// DOT lines of the first `n` nodes.
pub open spec fn dot_nodes(actions: Seq<ActionModel>, n: nat) -> Seq<char>
    decreases n,
{
    if n == 0 || n > actions.len() {
        Seq::empty()
    } else {
        dot_nodes(actions, (n - 1) as nat) + "    N"@ + nat_text((n - 1) as nat) + " [label=\""@
            + node_label(actions[n - 1]) + "\"];\n"@
    }
}

/// DOT lines of the first `n` edges.
pub open spec fn dot_edges(edges: Seq<(usize, usize, (u64, u64))>, n: nat) -> Seq<char>
    decreases n,
{
    if n == 0 || n > edges.len() {
        Seq::empty()
    } else {
        let e = edges[n - 1];
        dot_edges(edges, (n - 1) as nat) + "    N"@ + nat_text(e.0 as nat) + " -> N"@ + nat_text(
            e.1 as nat,
        ) + " [label=\"freq="@ + nat_text(e.2.0 as nat) + "\"];\n"@
    }
}

/// The Mermaid flowchart of a graph.
pub open spec fn mermaid_text(actions: Seq<ActionModel>, edges: Seq<(usize, usize, (u64, u64))>) -> Seq<
    char,
> {
    "flowchart TD\n"@ + mermaid_nodes(actions, actions.len()) + mermaid_edges(
        edges,
        p80_of(edge_frequencies(edges)),
        edges.len(),
    )
}

/// The DOT digraph of a graph.
pub open spec fn dot_text(actions: Seq<ActionModel>, edges: Seq<(usize, usize, (u64, u64))>) -> Seq<
    char,
> {
    "digraph ActionGraph {\n    node [shape=box];\n"@ + dot_nodes(actions, actions.len()) + dot_edges(
        edges,
        edges.len(),
    ) + "}\n"@
}

proof fn lemma_ascending_total()
    ensures
        total_ordering(ascending()),
{
    assert(vstd::relations::reflexive(ascending()));
    assert(vstd::relations::antisymmetric(ascending()));
    assert(vstd::relations::transitive(ascending()));
    assert(vstd::relations::strongly_connected(ascending()));
}

/// `v` in ascending order.
fn sort_ascending(v: &Vec<u64>) -> (r: Vec<u64>)
    ensures
        r@ == v@.sort_by(ascending()),
{
    broadcast use vstd::seq_lib::group_to_multiset_ensures;

    let mut out: Vec<u64> = Vec::new();
    let mut i: usize = 0;
    assert(v@.subrange(0, 0) =~= Seq::<u64>::empty());
    while i < v.len()
        invariant
            i <= v@.len(),
            sorted_by(out@, ascending()),
            out@.to_multiset() == v@.subrange(0, i as int).to_multiset(),
        decreases v@.len() - i,
    {
        let x = v[i];
        let mut pos: usize = 0;
        while pos < out.len() && out[pos] <= x
            invariant
                pos <= out@.len(),
                forall|j: int| 0 <= j < pos ==> out@[j] <= x,
            decreases out@.len() - pos,
        {
            pos += 1;
        }
        let ghost before = out@;
        out.insert(pos, x);
        proof {
            assert(v@.subrange(0, i + 1) =~= v@.subrange(0, i as int).push(x));
            vstd::seq_lib::to_multiset_insert(before, pos as int, x);
            vstd::seq_lib::to_multiset_build(v@.subrange(0, i as int), x);
            assert forall|a: int, b: int| 0 <= a < b < out@.len() implies #[trigger] ascending()(
                out@[a],
                out@[b],
            ) by {
                if b < pos {
                    assert(ascending()(before[a], before[b]));
                } else if b == pos {
                    assert(before[a] <= x);
                } else if a < pos {
                    assert(ascending()(before[a], before[b - 1]));
                } else if a == pos {
                    assert(before[pos as int] > x);
                    if b - 1 > pos {
                        assert(ascending()(before[pos as int], before[b - 1]));
                    }
                } else {
                    assert(ascending()(before[a - 1], before[b - 1]));
                }
            }
        }
        i += 1;
    }
    proof {
        assert(v@.subrange(0, v@.len() as int) =~= v@);
        lemma_ascending_total();
        v@.lemma_sort_by_ensures(ascending());
        vstd::seq_lib::lemma_sorted_unique(out@, v@.sort_by(ascending()), ascending());
    }
    out
}

/// The 80th-percentile edge frequency (1 when there are no edges).
fn p80_frequency(graph: &ActionGraph) -> (r: u64)
    ensures
        r == p80_of(edge_frequencies(graph.edges())),
{
    let n = graph.edge_count();
    let mut freqs: Vec<u64> = Vec::new();
    let mut k: usize = 0;
    while k < n
        invariant
            n == graph.edges().len(),
            k <= n,
            freqs@ == edge_frequencies(graph.edges()).subrange(0, k as int),
        decreases n - k,
    {
        let (_, _, t) = graph.transition(k);
        freqs.push(t.frequency);
        proof {
            assert(edge_frequencies(graph.edges()).subrange(0, k + 1) =~= edge_frequencies(
                graph.edges(),
            ).subrange(0, k as int).push(t.frequency));
        }
        k += 1;
    }
    assert(freqs@ =~= edge_frequencies(graph.edges()));
    if freqs.len() == 0 {
        return 1;
    }
    let sorted = sort_ascending(&freqs);
    proof {
        lemma_ascending_total();
        freqs@.lemma_sort_by_ensures(ascending());
        vstd::seq_lib::to_multiset_len(freqs@);
        vstd::seq_lib::to_multiset_len(sorted@);
    }
    let len = freqs.len();
    let scaled: u128 = (len as u128) * 4 / 5;
    let idx: usize = if scaled < (len - 1) as u128 {
        scaled as usize
    } else {
        len - 1
    };
    sorted[idx]
}

fn push_label(s: &mut String, graph: &ActionGraph, i: usize)
    requires
        i < graph.node_actions().len(),
    ensures
        final(s)@ == old(s)@ + node_label(graph.node_actions()[i as int]),
{
    let node = graph.node(i);
    s.append(node.action.screen_id.as_str());
    s.append(":");
    s.append(node.action.command_id.as_str());
}

/// The graph as a Mermaid flowchart: one `N{i}["screen:command"]` line per
/// node, then one line per edge; edges at or above the 80th-percentile
/// frequency are labelled `freq=N`.
pub fn to_mermaid(graph: &ActionGraph) -> (r: String)
    ensures
        r@ == mermaid_text(graph.node_actions(), graph.edges()),
{
    let mut out = String::new();
    out.append("flowchart TD\n");
    let nodes = graph.node_count();
    let mut i: usize = 0;
    while i < nodes
        invariant
            nodes == graph.node_actions().len(),
            i <= nodes,
            out@ == "flowchart TD\n"@ + mermaid_nodes(graph.node_actions(), i as nat),
        decreases nodes - i,
    {
        out.append("    N");
        push_nat(&mut out, i as u64);
        out.append("[\"");
        push_label(&mut out, graph, i);
        out.append("\"]\n");
        i += 1;
    }
    let p80 = p80_frequency(graph);
    let ghost head = out@;
    let edges = graph.edge_count();
    let mut k: usize = 0;
    while k < edges
        invariant
            edges == graph.edges().len(),
            k <= edges,
            p80 == p80_of(edge_frequencies(graph.edges())),
            out@ == head + mermaid_edges(graph.edges(), p80, k as nat),
        decreases edges - k,
    {
        let (src, dst, t) = graph.transition(k);
        out.append("    N");
        push_nat(&mut out, src as u64);
        if t.frequency >= p80 {
            out.append(" -->|\"freq=");
            push_nat(&mut out, t.frequency);
            out.append("\"| N");
        } else {
            out.append(" --> N");
        }
        push_nat(&mut out, dst as u64);
        out.append("\n");
        k += 1;
    }
    out
}

/// The graph as a Graphviz DOT digraph; every edge is labelled `freq=N`.
pub fn to_dot(graph: &ActionGraph) -> (r: String)
    ensures
        r@ == dot_text(graph.node_actions(), graph.edges()),
{
    let mut out = String::new();
    out.append("digraph ActionGraph {\n    node [shape=box];\n");
    let nodes = graph.node_count();
    let mut i: usize = 0;
    while i < nodes
        invariant
            nodes == graph.node_actions().len(),
            i <= nodes,
            out@ == "digraph ActionGraph {\n    node [shape=box];\n"@ + dot_nodes(
                graph.node_actions(),
                i as nat,
            ),
        decreases nodes - i,
    {
        out.append("    N");
        push_nat(&mut out, i as u64);
        out.append(" [label=\"");
        push_label(&mut out, graph, i);
        out.append("\"];\n");
        i += 1;
    }
    let ghost head = out@;
    let edges = graph.edge_count();
    let mut k: usize = 0;
    while k < edges
        invariant
            edges == graph.edges().len(),
            k <= edges,
            out@ == head + dot_edges(graph.edges(), k as nat),
        decreases edges - k,
    {
        let (src, dst, t) = graph.transition(k);
        out.append("    N");
        push_nat(&mut out, src as u64);
        out.append(" -> N");
        push_nat(&mut out, dst as u64);
        out.append(" [label=\"freq=");
        push_nat(&mut out, t.frequency);
        out.append("\"];\n");
        k += 1;
    }
    out.append("}\n");
    out
}

} // verus!
