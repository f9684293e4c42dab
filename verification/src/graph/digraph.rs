//! The directed graph of the `petgraph` crate, as the action graph holds
//! it: node weights are visit counts, edge weights are pairs of counts.

use vstd::prelude::*;

use petgraph::graph::{DiGraph, NodeIndex};
use petgraph::visit::EdgeRef;
use petgraph::Direction;

verus! {

#[verifier::external_type_specification]
#[verifier::external_body]
#[verifier::reject_recursive_types(N)]
#[verifier::reject_recursive_types(E)]
#[verifier::reject_recursive_types(Ty)]
#[verifier::reject_recursive_types(Ix)]
pub struct ExGraph<N, E, Ty, Ix>(petgraph::graph::Graph<N, E, Ty, Ix>);

#[verifier::external_type_specification]
#[verifier::external_body]
pub struct ExDirected(petgraph::Directed);

/// The node weights of a graph, by node index.
pub uninterp spec fn graph_nodes(g: DiGraph<u64, (u64, u64)>) -> Seq<u64>;

/// The edges of a graph, by edge index: source, target and weight.
pub uninterp spec fn graph_edges(g: DiGraph<u64, (u64, u64)>) -> Seq<(usize, usize, (u64, u64))>;

/// `Graph::new`: a directed graph with no nodes and no edges.
#[verifier::external_body]
pub(crate) fn graph_new() -> (g: DiGraph<u64, (u64, u64)>)
    ensures
        graph_nodes(g) == Seq::<u64>::empty(),
        graph_edges(g) == Seq::<(usize, usize, (u64, u64))>::empty(),
{
    DiGraph::new()
}

/// `Graph::add_node`: appends a node, whose index is the former node
/// count. The graph's `u32` indices leave room for `u32::MAX - 1` nodes.
#[verifier::external_body]
pub(crate) fn graph_add_node(g: &mut DiGraph<u64, (u64, u64)>, weight: u64) -> (i: usize)
    requires
        graph_nodes(*old(g)).len() < u32::MAX,
    ensures
        i == graph_nodes(*old(g)).len(),
        graph_nodes(*final(g)) == graph_nodes(*old(g)).push(weight),
        graph_edges(*final(g)) == graph_edges(*old(g)),
{
    g.add_node(weight).index()
}

/// `Graph::add_edge`: appends an edge from `a` to `b`, whose index is the
/// former edge count. Both nodes must exist; the graph's `u32` indices
/// leave room for `u32::MAX - 1` edges.
#[verifier::external_body]
pub(crate) fn graph_add_edge(g: &mut DiGraph<u64, (u64, u64)>, a: usize, b: usize, weight: (u64, u64)) -> (e: usize)
    requires
        a < graph_nodes(*old(g)).len(),
        b < graph_nodes(*old(g)).len(),
        graph_edges(*old(g)).len() < u32::MAX,
    ensures
        e == graph_edges(*old(g)).len(),
        graph_edges(*final(g)) == graph_edges(*old(g)).push((a, b, weight)),
        graph_nodes(*final(g)) == graph_nodes(*old(g)),
{
    g.add_edge(NodeIndex::new(a), NodeIndex::new(b), weight).index()
}

/// `Graph::node_count`.
#[verifier::external_body]
pub(crate) fn graph_node_count(g: &DiGraph<u64, (u64, u64)>) -> (n: usize)
    ensures
        n == graph_nodes(*g).len(),
{
    g.node_count()
}

/// `Graph::edge_count`.
#[verifier::external_body]
pub(crate) fn graph_edge_count(g: &DiGraph<u64, (u64, u64)>) -> (n: usize)
    ensures
        n == graph_edges(*g).len(),
{
    g.edge_count()
}

/// `Graph::node_weight` of an existing node.
#[verifier::external_body]
pub(crate) fn graph_node_weight(g: &DiGraph<u64, (u64, u64)>, i: usize) -> (w: u64)
    requires
        i < graph_nodes(*g).len(),
    ensures
        w == graph_nodes(*g)[i as int],
{
    g[NodeIndex::new(i)]
}

/// `Graph::node_weight_mut` of an existing node, set to `w`.
#[verifier::external_body]
pub(crate) fn graph_set_node_weight(g: &mut DiGraph<u64, (u64, u64)>, i: usize, w: u64)
    requires
        i < graph_nodes(*old(g)).len(),
    ensures
        graph_nodes(*final(g)) == graph_nodes(*old(g)).update(i as int, w),
        graph_edges(*final(g)) == graph_edges(*old(g)),
{
    g[NodeIndex::new(i)] = w;
}

/// `Graph::raw_edges` at an existing index: source, target and weight.
#[verifier::external_body]
pub(crate) fn graph_edge(g: &DiGraph<u64, (u64, u64)>, e: usize) -> (r: (usize, usize, (u64, u64)))
    requires
        e < graph_edges(*g).len(),
    ensures
        r == graph_edges(*g)[e as int],
{
    let ed = &g.raw_edges()[e];
    (ed.source().index(), ed.target().index(), ed.weight)
}

/// The indices of the edges leaving `a` among the first `n`, most recently
/// added first.
pub open spec fn outgoing_desc(edges: Seq<(usize, usize, (u64, u64))>, a: usize, n: nat) -> Seq<usize>
    decreases n,
{
    if n == 0 || n > edges.len() {
        Seq::empty()
    } else {
        let rest = outgoing_desc(edges, a, (n - 1) as nat);
        if edges[n - 1].0 == a {
            seq![(n - 1) as usize] + rest
        } else {
            rest
        }
    }
}

/// `Graph::edges_directed(a, Outgoing)`, as edge indices: the edges leaving
/// `a`, in reverse order of their addition.
#[verifier::external_body]
pub(crate) fn graph_outgoing(g: &DiGraph<u64, (u64, u64)>, a: usize) -> (r: Vec<usize>)
    requires
        a < graph_nodes(*g).len(),
    ensures
        r@ == outgoing_desc(graph_edges(*g), a, graph_edges(*g).len()),
{
    g.edges_directed(NodeIndex::new(a), Direction::Outgoing).map(|e| e.id().index()).collect()
}

/// Some edge enters `a`.
pub open spec fn enters(edges: Seq<(usize, usize, (u64, u64))>, a: usize) -> bool {
    exists|k: int| 0 <= k < edges.len() && (#[trigger] edges[k]).1 == a
}

/// `Graph::edges_directed(a, Incoming)` is non-empty: some edge enters `a`.
#[verifier::external_body]
pub(crate) fn graph_has_incoming(g: &DiGraph<u64, (u64, u64)>, a: usize) -> (r: bool)
    requires
        a < graph_nodes(*g).len(),
    ensures
        r == enters(graph_edges(*g), a),
{
    g.edges_directed(NodeIndex::new(a), Direction::Incoming).next().is_some()
}

}
