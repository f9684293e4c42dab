//! [`ActionGraph`]: the directed graph of canonical-action transitions,
//! and [`from_scenarios`], which builds it from a corpus of scenarios.

use vstd::prelude::*;

use petgraph::graph::DiGraph;

use crate::graph::digraph::{
    enters, graph_add_edge, graph_add_node, graph_edge, graph_edge_count, graph_edges,
    graph_has_incoming, graph_new, graph_node_count, graph_node_weight, graph_nodes, graph_outgoing,
    graph_set_node_weight, outgoing_desc,
};
use crate::graph::seqs::{
    all_pairs, count_of, distinct_in_order, flatten, lemma_count_contains, lemma_count_push,
    lemma_distinct_prefix, lemma_distinct_props, lemma_distinct_push, lemma_flatten_split,
    lemma_pairs_len, lemma_pairs_step, lemma_prefix_step, no_duplicates, pairs_of,
};
use crate::scenario::{actions_model, ActionModel, CanonicalAction, Scenario};

verus! {

/// A node of the graph: one distinct canonical action and how many times
/// it was visited across all scenarios.
#[derive(Debug)]
pub struct ActionNode {
    /// The canonical action this node stands for.
    pub action: CanonicalAction,
    /// Number of occurrences of the action across all input scenarios.
    pub visit_count: u64,
}

/// An edge of the graph: a direct transition from one action to the next.
///
/// Its anomaly score is the exact ratio [`Transition::anomaly`]: with the
/// dependency measure `dep = (f - b) / (f + b + 1)` of the forward and
/// backward frequencies, the score is `(1 - dep) / 2`, and `1 - f / (f + 1)`
/// for a self-loop; an edge that was not scored (one drawn from a process
/// tree) has score zero.
#[derive(Clone, Copy, Debug)]
pub struct Transition {
    /// How many times the transition was observed.
    pub frequency: u64,
    /// How many of those ended in a session with an exception (the builder
    /// records none).
    pub failure_count: u64,
    /// How many times the reverse transition was observed.
    pub reverse_frequency: u64,
    /// The transition leads from an action back to itself.
    pub self_loop: bool,
    /// The anomaly score comes from the frequencies (otherwise it is zero).
    pub scored: bool,
}

/// The anomaly score of a transition as `(numerator, denominator)`.
pub open spec fn anomaly_ratio(t: Transition) -> (int, int) {
    if !t.scored {
        (0, 1)
    } else if t.self_loop {
        (1, t.frequency + 1)
    } else {
        (2 * t.reverse_frequency + 1, 2 * (t.frequency + t.reverse_frequency + 1))
    }
}

/// The anomaly score is `(1 - dep) / 2` for the dependency measure
/// `dep = (f - b) / (f + b + 1)` of a scored edge between two distinct
/// actions, with `f` its frequency and `b` that of the reverse edge; it is
/// `1 - f / (f + 1)` for a scored self-loop and zero for an unscored edge.
/// The denominator is positive, and for a fixed forward frequency the
/// score strictly grows with the reverse frequency.
pub proof fn anomaly_is_half_the_missing_dependency(t: Transition, u: Transition)
    ensures
        anomaly_ratio(t).1 > 0,
        !t.scored ==> anomaly_ratio(t).0 == 0,
        t.scored && t.self_loop ==> anomaly_ratio(t).0 * (t.frequency + 1) == anomaly_ratio(t).1 * ((
        t.frequency + 1) - t.frequency),
        t.scored && !t.self_loop ==> anomaly_ratio(t).0 * (2 * (t.frequency + t.reverse_frequency + 1))
            == anomaly_ratio(t).1 * ((t.frequency + t.reverse_frequency + 1) - (t.frequency
            - t.reverse_frequency)),
        t.scored && !t.self_loop && u.scored && !u.self_loop && t.frequency == u.frequency
            && t.reverse_frequency < u.reverse_frequency ==> anomaly_ratio(t).0 * anomaly_ratio(u).1
            < anomaly_ratio(u).0 * anomaly_ratio(t).1,
{
    let f: int = t.frequency as int;
    let b: int = t.reverse_frequency as int;
    let c: int = u.reverse_frequency as int;
    if t.scored && t.self_loop {
        assert(1 * (f + 1) == (f + 1) * ((f + 1) - f)) by (nonlinear_arith);
    }
    if t.scored && !t.self_loop {
        assert((2 * b + 1) * (2 * (f + b + 1)) == (2 * (f + b + 1)) * ((f + b + 1) - (f - b)))
            by (nonlinear_arith);
        if u.scored && !u.self_loop && t.frequency == u.frequency && b < c {
            assert((2 * b + 1) * (2 * (f + c + 1)) < (2 * c + 1) * (2 * (f + b + 1))) by (nonlinear_arith)
                requires
                    0 <= f,
                    0 <= b < c,
            ;
        }
    }
}

impl Transition {
    /// The anomaly score as an exact ratio `(numerator, denominator)`;
    /// the denominator is positive.
    pub fn anomaly(&self) -> (r: (u128, u128))
        ensures
            r.0 == anomaly_ratio(*self).0,
            r.1 == anomaly_ratio(*self).1,
            r.1 > 0,
    {
        if !self.scored {
            (0, 1)
        } else if self.self_loop {
            (1, self.frequency as u128 + 1)
        } else {
            (
                2 * (self.reverse_frequency as u128) + 1,
                2 * (self.frequency as u128 + self.reverse_frequency as u128 + 1),
            )
        }
    }
}

/// Directed weighted graph of canonical-action transitions.
///
/// The graph proper is a `petgraph` directed graph whose node weights are
/// visit counts and whose edge weights are (forward, backward) transition
/// frequencies; the action of node `i` is `actions[i]`, and no action is
/// held by two nodes; `scored[e]` says whether edge `e` is scored from its
/// frequencies (it is for a graph built from a corpus, not for one drawn
/// from a process tree).
#[derive(Debug)]
pub struct ActionGraph {
    graph: DiGraph<u64, (u64, u64)>,
    actions: Vec<CanonicalAction>,
    scored: Vec<bool>,
}

/// The parts of a graph agree: one action per node, no action twice, and
/// every edge between existing nodes.
pub open spec fn parts_wf(
    actions: Seq<ActionModel>,
    nodes: Seq<u64>,
    edges: Seq<(usize, usize, (u64, u64))>,
) -> bool {
    &&& actions.len() == nodes.len()
    &&& nodes.len() < u32::MAX
    &&& edges.len() < u32::MAX
    &&& no_duplicates(actions)
    &&& forall|k: int| 0 <= k < edges.len() ==> (#[trigger] edges[k]).0 < nodes.len() && edges[k].1 < nodes.len()
}

impl ActionGraph {
    #[verifier::type_invariant]
    spec fn wf(self) -> bool {
        &&& parts_wf(actions_model(self.actions@), graph_nodes(self.graph), graph_edges(self.graph))
        &&& self.scored@.len() == graph_edges(self.graph).len()
    }

    /// The action of each node, by node index.
    pub closed spec fn node_actions(&self) -> Seq<ActionModel> {
        actions_model(self.actions@)
    }

    /// The visit count of each node, by node index.
    pub closed spec fn visits(&self) -> Seq<u64> {
        graph_nodes(self.graph)
    }

    /// The edges by edge index: source, target, and (forward, backward)
    /// frequencies.
    pub closed spec fn edges(&self) -> Seq<(usize, usize, (u64, u64))> {
        graph_edges(self.graph)
    }

    /// Whether each edge, by edge index, is scored from its frequencies.
    pub closed spec fn scored(&self) -> Seq<bool> {
        self.scored@
    }

    /// An empty graph.
    pub fn new() -> (r: Self)
        ensures
            r.node_actions() == Seq::<ActionModel>::empty(),
            r.visits() == Seq::<u64>::empty(),
            r.edges() == Seq::<(usize, usize, (u64, u64))>::empty(),
            r.scored() == Seq::<bool>::empty(),
    {
        let r = ActionGraph { graph: graph_new(), actions: Vec::new(), scored: Vec::new() };
        assert(actions_model(r.actions@) =~= Seq::<ActionModel>::empty());
        r
    }

    /// Number of nodes (distinct canonical actions).
    pub fn node_count(&self) -> (n: usize)
        ensures
            n == self.visits().len(),
            n == self.node_actions().len(),
            parts_wf(self.node_actions(), self.visits(), self.edges()),
    {
        proof {
            use_type_invariant(self);
        }
        graph_node_count(&self.graph)
    }

    /// Number of edges (distinct transitions).
    pub fn edge_count(&self) -> (n: usize)
        ensures
            n == self.edges().len(),
    {
        graph_edge_count(&self.graph)
    }

    /// The underlying `petgraph` graph: visit counts on nodes, (forward,
    /// backward) frequencies on edges.
    pub fn graph(&self) -> (g: &DiGraph<u64, (u64, u64)>)
        ensures
            graph_nodes(*g) == self.visits(),
            graph_edges(*g) == self.edges(),
    {
        &self.graph
    }

    /// The index of the node holding `action`, if there is one.
    pub fn node_index(&self, action: &CanonicalAction) -> (r: Option<usize>)
        ensures
            r matches Some(i) ==> i < self.node_actions().len() && self.node_actions()[i as int]
                == action.model(),
            r is None ==> !self.node_actions().contains(action.model()),
    {
        find_action(&self.actions, action)
    }

    /// Node `i`: a copy of its action, and its visit count.
    pub fn node(&self, i: usize) -> (r: ActionNode)
        requires
            i < self.node_actions().len(),
        ensures
            r.action.model() == self.node_actions()[i as int],
            r.visit_count == self.visits()[i as int],
    {
        proof {
            use_type_invariant(self);
        }
        ActionNode {
            action: self.actions[i].duplicate(),
            visit_count: graph_node_weight(&self.graph, i),
        }
    }

    /// Edge `e`: its source, its target and its transition.
    pub fn transition(&self, e: usize) -> (r: (usize, usize, Transition))
        requires
            e < self.edges().len(),
        ensures
            r.0 == self.edges()[e as int].0,
            r.1 == self.edges()[e as int].1,
            r.2.frequency == self.edges()[e as int].2.0,
            r.2.reverse_frequency == self.edges()[e as int].2.1,
            r.2.failure_count == 0,
            r.2.self_loop == (r.0 == r.1),
            r.2.scored == self.scored()[e as int],
    {
        proof {
            use_type_invariant(self);
        }
        let (a, b, w) = graph_edge(&self.graph, e);
        let scored = self.scored[e];
        (a, b, Transition { frequency: w.0, failure_count: 0, reverse_frequency: w.1, self_loop: a == b, scored })
    }
}

impl Default for ActionGraph {
    /// An empty graph.
    fn default() -> (r: Self)
        ensures
            r.node_actions() == Seq::<ActionModel>::empty(),
            r.visits() == Seq::<u64>::empty(),
            r.edges() == Seq::<(usize, usize, (u64, u64))>::empty(),
            r.scored() == Seq::<bool>::empty(),
    {
        ActionGraph::new()
    }
}

/// The edges among the first `n` whose frequency is at least `min` and
/// whose flag in `keep` is set, in order.
pub open spec fn kept_edges(
    edges: Seq<(usize, usize, (u64, u64))>,
    min: u64,
    keep: Seq<bool>,
    n: nat,
) -> Seq<(usize, usize, (u64, u64))>
    decreases n,
{
    if n == 0 || n > edges.len() {
        Seq::empty()
    } else {
        let rest = kept_edges(edges, min, keep, (n - 1) as nat);
        let e = edges[n - 1];
        if e.2.0 >= min && keep[n - 1] {
            rest.push(e)
        } else {
            rest
        }
    }
}

/// The flags of the edges that [`kept_edges`] keeps, in order.
pub open spec fn kept_flags(
    edges: Seq<(usize, usize, (u64, u64))>,
    flags: Seq<bool>,
    min: u64,
    keep: Seq<bool>,
    n: nat,
) -> Seq<bool>
    decreases n,
{
    if n == 0 || n > edges.len() {
        Seq::empty()
    } else {
        let rest = kept_flags(edges, flags, min, keep, (n - 1) as nat);
        if edges[n - 1].2.0 >= min && keep[n - 1] {
            rest.push(flags[n - 1])
        } else {
            rest
        }
    }
}

proof fn lemma_kept_lengths(
    edges: Seq<(usize, usize, (u64, u64))>,
    flags: Seq<bool>,
    min: u64,
    keep: Seq<bool>,
    n: nat,
)
    ensures
        kept_flags(edges, flags, min, keep, n).len() == kept_edges(edges, min, keep, n).len(),
    decreases n,
{
    if n > 0 && n <= edges.len() {
        lemma_kept_lengths(edges, flags, min, keep, (n - 1) as nat);
    }
}

impl ActionGraph {
    /// The edges leaving node `a`, most recently added first.
    pub fn outgoing(&self, a: usize) -> (r: Vec<usize>)
        requires
            a < self.visits().len(),
        ensures
            r@ == outgoing_desc(self.edges(), a, self.edges().len()),
    {
        graph_outgoing(&self.graph, a)
    }

    /// Whether some edge enters node `a`.
    pub fn has_incoming(&self, a: usize) -> (r: bool)
        requires
            a < self.visits().len(),
        ensures
            r == enters(self.edges(), a),
    {
        graph_has_incoming(&self.graph, a)
    }

    /// A copy with every node (same actions, same visits, same indices) and
    /// only the edges of frequency at least `min_frequency` whose flag in
    /// `keep` is set, in their order.
    pub fn with_edges_where(&self, min_frequency: u64, keep: &[bool]) -> (r: ActionGraph)
        requires
            keep@.len() == self.edges().len(),
        ensures
            r.node_actions() == self.node_actions(),
            r.visits() == self.visits(),
            r.edges() == kept_edges(self.edges(), min_frequency, keep@, self.edges().len()),
            r.scored() == kept_flags(self.edges(), self.scored(), min_frequency, keep@, self.edges().len()),
    {
        proof {
            use_type_invariant(self);
        }
        let mut graph = graph_new();
        let mut actions: Vec<CanonicalAction> = Vec::new();
        let n = graph_node_count(&self.graph);
        let mut i: usize = 0;
        while i < n
            invariant
                parts_wf(actions_model(self.actions@), graph_nodes(self.graph), graph_edges(self.graph)),
                n == graph_nodes(self.graph).len(),
                i <= n,
                actions@.len() == i,
                self.actions@.len() == n,
                actions_model(actions@) == actions_model(self.actions@).subrange(0, i as int),
                graph_nodes(graph) == graph_nodes(self.graph).subrange(0, i as int),
                graph_edges(graph) == Seq::<(usize, usize, (u64, u64))>::empty(),
            decreases n - i,
        {
            let w = graph_node_weight(&self.graph, i);
            graph_add_node(&mut graph, w);
            let ghost before = actions@;
            actions.push(self.actions[i].duplicate());
            proof {
                assert(actions@ == before.push(actions@[i as int]));
                assert(actions@[i as int].model() == self.actions@[i as int].model());
                assert(actions_model(actions@) =~= actions_model(self.actions@).subrange(0, i + 1));
                assert(graph_nodes(graph) =~= graph_nodes(self.graph).subrange(0, i + 1));
            }
            i += 1;
        }
        assert(actions_model(actions@) =~= actions_model(self.actions@));
        assert(graph_nodes(graph) =~= graph_nodes(self.graph));
        let m = graph_edge_count(&self.graph);
        let mut scored: Vec<bool> = Vec::new();
        let mut k: usize = 0;
        while k < m
            invariant
                parts_wf(actions_model(self.actions@), graph_nodes(self.graph), graph_edges(self.graph)),
                self.scored@.len() == m,
                m == graph_edges(self.graph).len(),
                keep@.len() == m,
                k <= m,
                actions_model(actions@) == actions_model(self.actions@),
                graph_nodes(graph) == graph_nodes(self.graph),
                graph_edges(graph) == kept_edges(graph_edges(self.graph), min_frequency, keep@, k as nat),
                scored@ == kept_flags(graph_edges(self.graph), self.scored@, min_frequency, keep@, k as nat),
                graph_edges(graph).len() <= k,
            decreases m - k,
        {
            let (a, b, w) = graph_edge(&self.graph, k);
            if w.0 >= min_frequency && keep[k] {
                graph_add_edge(&mut graph, a, b, w);
                scored.push(self.scored[k]);
            }
            k += 1;
        }
        proof {
            lemma_kept_in_range(graph_edges(self.graph), min_frequency, keep@, m as nat, n as nat);
            lemma_kept_lengths(graph_edges(self.graph), self.scored@, min_frequency, keep@, m as nat);
        }
        ActionGraph { graph, actions, scored }
    }
}

proof fn lemma_kept_in_range(
    edges: Seq<(usize, usize, (u64, u64))>,
    min: u64,
    keep: Seq<bool>,
    k: nat,
    n: nat,
)
    requires
        forall|q: int| 0 <= q < edges.len() ==> (#[trigger] edges[q]).0 < n && edges[q].1 < n,
        k <= edges.len(),
    ensures
        forall|q: int|
            0 <= q < kept_edges(edges, min, keep, k).len() ==> (#[trigger] kept_edges(
                edges,
                min,
                keep,
                k,
            )[q]).0 < n && kept_edges(edges, min, keep, k)[q].1 < n,
        kept_edges(edges, min, keep, k).len() <= k,
    decreases k,
{
    if k > 0 {
        lemma_kept_in_range(edges, min, keep, (k - 1) as nat, n);
        let rest = kept_edges(edges, min, keep, (k - 1) as nat);
        let e = edges[k - 1];
        assert forall|q: int| 0 <= q < kept_edges(edges, min, keep, k).len() implies (
        #[trigger] kept_edges(edges, min, keep, k)[q]).0 < n && kept_edges(edges, min, keep, k)[q].1
            < n by {
            if q < rest.len() {
                assert(kept_edges(edges, min, keep, k)[q] == rest[q]);
            }
        }
    }
}

/// The index of `action` among `actions`, by model.
pub(crate) fn find_action(actions: &Vec<CanonicalAction>, action: &CanonicalAction) -> (r: Option<usize>)
    ensures
        r matches Some(i) ==> i < actions@.len() && actions_model(actions@)[i as int] == action.model(),
        r is None ==> !actions_model(actions@).contains(action.model()),
{
    let mut i: usize = 0;
    while i < actions.len()
        invariant
            i <= actions@.len(),
            forall|j: int| 0 <= j < i ==> actions@[j].model() != action.model(),
        decreases actions@.len() - i,
    {
        if actions[i].same(action) {
            return Some(i);
        }
        i += 1;
    }
    proof {
        if actions_model(actions@).contains(action.model()) {
            let j = choose|j: int|
                0 <= j < actions_model(actions@).len() && actions_model(actions@)[j] == action.model();
            assert(actions@[j].model() == action.model());
        }
    }
    None
}

/// The node of `action`, added (with no visits) when there is none yet.
fn get_or_insert(
    graph: &mut DiGraph<u64, (u64, u64)>,
    actions: &mut Vec<CanonicalAction>,
    action: &CanonicalAction,
) -> (r: usize)
    requires
        actions_model(old(actions)@).len() == graph_nodes(*old(graph)).len(),
        actions_model(old(actions)@).contains(action.model()) || graph_nodes(*old(graph)).len()
            < u32::MAX,
    ensures
        actions_model(old(actions)@).contains(action.model()) ==> actions_model(final(actions)@)
            == actions_model(old(actions)@) && graph_nodes(*final(graph)) == graph_nodes(*old(graph)),
        !actions_model(old(actions)@).contains(action.model()) ==> actions_model(final(actions)@)
            == actions_model(old(actions)@).push(action.model()) && graph_nodes(*final(graph))
            == graph_nodes(*old(graph)).push(0),
        graph_edges(*final(graph)) == graph_edges(*old(graph)),
        r < actions_model(final(actions)@).len(),
        actions_model(final(actions)@)[r as int] == action.model(),
{
    match find_action(actions, action) {
        Some(i) => i,
        None => {
            let i = graph_add_node(graph, 0);
            actions.push(action.duplicate());
            assert(actions_model(actions@) =~= actions_model(old(actions)@).push(action.model()));
            i
        },
    }
}

/// The actions of a list of pairs.
pub open spec fn pairs_model(e: Seq<(CanonicalAction, CanonicalAction)>) -> Seq<(ActionModel, ActionModel)> {
    e.map_values(|p: (CanonicalAction, CanonicalAction)| (p.0.model(), p.1.model()))
}

/// The endpoints of a list of pairs, source before target, pair after pair.
pub open spec fn edge_ends(e: Seq<(ActionModel, ActionModel)>) -> Seq<ActionModel>
    decreases e.len(),
{
    if e.len() == 0 {
        Seq::empty()
    } else {
        edge_ends(e.drop_last()) + seq![e.last().0, e.last().1]
    }
}

/// The graph with a node for each distinct action of `nodes` and of the
/// pairs `e` (in order of first appearance, none visited), and an edge of
/// forward frequency one and backward frequency zero for each pair of `e`,
/// in order.
pub open spec fn unit_graph(
    actions: Seq<ActionModel>,
    visits: Seq<u64>,
    edges: Seq<(usize, usize, (u64, u64))>,
    nodes: Seq<ActionModel>,
    e: Seq<(ActionModel, ActionModel)>,
) -> bool {
    &&& actions == distinct_in_order(nodes + edge_ends(e))
    &&& visits == Seq::new(actions.len(), |i: int| 0u64)
    &&& edges.len() == e.len()
    &&& forall|k: int|
        0 <= k < edges.len() ==> {
            &&& (#[trigger] edges[k]).0 < actions.len()
            &&& edges[k].1 < actions.len()
            &&& actions[edges[k].0 as int] == e[k].0
            &&& actions[edges[k].1 as int] == e[k].1
            &&& edges[k].2 == (1u64, 0u64)
        }
}

/// A graph over the actions `nodes` and the pairs `e`, as [`unit_graph`]
/// describes it.
pub(crate) fn from_unit_edges(nodes: &Vec<CanonicalAction>, e: &Vec<(CanonicalAction, CanonicalAction)>) -> (r: ActionGraph)
    requires
        nodes@.len() + 2 * e@.len() + 1 < u32::MAX,
    ensures
        unit_graph(r.node_actions(), r.visits(), r.edges(), actions_model(nodes@), pairs_model(e@)),
        r.scored() == Seq::new(e@.len(), |k: int| false),
{
    let ghost nm = actions_model(nodes@);
    let ghost em = pairs_model(e@);
    let mut graph = graph_new();
    let mut actions: Vec<CanonicalAction> = Vec::new();
    let mut i: usize = 0;
    assert(actions_model(actions@) =~= Seq::<ActionModel>::empty());
    assert(nm.subrange(0, 0) =~= Seq::<ActionModel>::empty());
    while i < nodes.len()
        invariant
            nm == actions_model(nodes@),
            nodes@.len() + 2 * e@.len() + 1 < u32::MAX,
            i <= nodes@.len(),
            actions_model(actions@) == distinct_in_order(nm.subrange(0, i as int)),
            graph_nodes(graph) == Seq::new(actions_model(actions@).len(), |q: int| 0u64),
            graph_edges(graph) == Seq::<(usize, usize, (u64, u64))>::empty(),
        decreases nodes@.len() - i,
    {
        proof {
            lemma_distinct_props(nm.subrange(0, i as int));
            lemma_distinct_push(nm.subrange(0, i as int), nm[i as int]);
            assert(nm.subrange(0, i + 1) =~= nm.subrange(0, i as int).push(nm[i as int]));
        }
        let _ = get_or_insert(&mut graph, &mut actions, &nodes[i]);
        i += 1;
        assert(graph_nodes(graph) =~= Seq::new(actions_model(actions@).len(), |q: int| 0u64));
    }
    assert(nm.subrange(0, nodes@.len() as int) =~= nm);
    assert(edge_ends(em.subrange(0, 0)) =~= Seq::<ActionModel>::empty());
    assert(nm + edge_ends(em.subrange(0, 0)) =~= nm);
    let mut k: usize = 0;
    while k < e.len()
        invariant
            nm == actions_model(nodes@),
            em == pairs_model(e@),
            nodes@.len() + 2 * e@.len() + 1 < u32::MAX,
            k <= e@.len(),
            actions_model(actions@) == distinct_in_order(nm + edge_ends(em.subrange(0, k as int))),
            edge_ends(em.subrange(0, k as int)).len() == 2 * k,
            graph_nodes(graph) == Seq::new(actions_model(actions@).len(), |q: int| 0u64),
            graph_edges(graph).len() == k,
            forall|q: int|
                0 <= q < k ==> {
                    &&& (#[trigger] graph_edges(graph)[q]).0 < actions_model(actions@).len()
                    &&& graph_edges(graph)[q].1 < actions_model(actions@).len()
                    &&& actions_model(actions@)[graph_edges(graph)[q].0 as int] == em[q].0
                    &&& actions_model(actions@)[graph_edges(graph)[q].1 as int] == em[q].1
                    &&& graph_edges(graph)[q].2 == (1u64, 0u64)
                },
        decreases e@.len() - k,
    {
        let ghost s0 = nm + edge_ends(em.subrange(0, k as int));
        let ghost a0 = actions_model(actions@);
        proof {
            lemma_distinct_props(s0);
            lemma_distinct_props(s0.push(em[k as int].0));
            lemma_distinct_push(s0, em[k as int].0);
            lemma_distinct_push(s0.push(em[k as int].0), em[k as int].1);
            assert(em.subrange(0, k + 1).drop_last() =~= em.subrange(0, k as int));
            assert(s0.push(em[k as int].0).push(em[k as int].1) =~= nm + edge_ends(em.subrange(0, k + 1)));
            assert(em[k as int].0 == e@[k as int].0.model());
            assert(em[k as int].1 == e@[k as int].1.model());
        }
        let a = get_or_insert(&mut graph, &mut actions, &e[k].0);
        let b = get_or_insert(&mut graph, &mut actions, &e[k].1);
        let ghost g0 = graph_edges(graph);
        graph_add_edge(&mut graph, a, b, (1, 0));
        proof {
            let am = actions_model(actions@);
            assert forall|q: int| 0 <= q < k + 1 implies {
                &&& (#[trigger] graph_edges(graph)[q]).0 < am.len()
                &&& graph_edges(graph)[q].1 < am.len()
                &&& am[graph_edges(graph)[q].0 as int] == em[q].0
                &&& am[graph_edges(graph)[q].1 as int] == em[q].1
                &&& graph_edges(graph)[q].2 == (1u64, 0u64)
            } by {
                if q < k {
                    assert(graph_edges(graph)[q] == g0[q]);
                }
            }
        }
        k += 1;
        assert(graph_nodes(graph) =~= Seq::new(actions_model(actions@).len(), |q: int| 0u64));
    }
    assert(em.subrange(0, e@.len() as int) =~= em);
    proof {
        lemma_distinct_props(nm + edge_ends(em));
    }
    let mut scored: Vec<bool> = Vec::new();
    let mut q: usize = 0;
    while q < e.len()
        invariant
            q <= e@.len(),
            scored@ == Seq::new(q as nat, |k: int| false),
        decreases e@.len() - q,
    {
        scored.push(false);
        q += 1;
        assert(scored@ =~= Seq::new(q as nat, |k: int| false));
    }
    let r = ActionGraph { graph, actions, scored };
    r
}

/// Building a graph is deterministic: a corpus admits exactly one graph,
/// down to node order, visit counts, edge order and edge frequencies.
pub proof fn graph_build_is_deterministic(
    actions1: Seq<ActionModel>,
    visits1: Seq<u64>,
    edges1: Seq<(usize, usize, (u64, u64))>,
    actions2: Seq<ActionModel>,
    visits2: Seq<u64>,
    edges2: Seq<(usize, usize, (u64, u64))>,
    m: Seq<Seq<ActionModel>>,
)
    requires
        built_from(actions1, visits1, edges1, m),
        built_from(actions2, visits2, edges2, m),
    ensures
        actions1 == actions2,
        visits1 == visits2,
        edges1 == edges2,
{
    let f = flatten(m);
    lemma_distinct_props(f);
    assert(visits1 =~= visits2);
    assert forall|k: int| 0 <= k < edges1.len() implies edges1[k] == edges2[k] by {
        lemma_index_of_distinct(actions1, edges1[k].0 as int, edges2[k].0 as int);
        lemma_index_of_distinct(actions1, edges1[k].1 as int, edges2[k].1 as int);
    }
    assert(edges1 =~= edges2);
}

/// The model of a corpus: the action models of each scenario.
pub open spec fn corpus_model(scenarios: Seq<Scenario>) -> Seq<Seq<ActionModel>> {
    scenarios.map_values(|s: Scenario| s.model())
}

/// The graph built from a corpus `m`: its nodes are the distinct actions
/// in order of first appearance, each visited as often as it occurs; its
/// edges are the distinct consecutive pairs in order of first appearance,
/// each with the number of times it and its reverse occur.
pub open spec fn built_from(
    actions: Seq<ActionModel>,
    visits: Seq<u64>,
    edges: Seq<(usize, usize, (u64, u64))>,
    m: Seq<Seq<ActionModel>>,
) -> bool {
    let f = flatten(m);
    let p = all_pairs(m);
    let pd = distinct_in_order(p);
    &&& actions == distinct_in_order(f)
    &&& visits.len() == actions.len()
    &&& forall|i: int| 0 <= i < actions.len() ==> #[trigger] visits[i] == count_of(f, actions[i])
    &&& edges.len() == pd.len()
    &&& forall|k: int|
        0 <= k < edges.len() ==> {
            &&& (#[trigger] edges[k]).0 < actions.len()
            &&& edges[k].1 < actions.len()
            &&& actions[edges[k].0 as int] == pd[k].0
            &&& actions[edges[k].1 as int] == pd[k].1
            &&& edges[k].2.0 == count_of(p, pd[k])
            &&& edges[k].2.1 == count_of(p, (pd[k].1, pd[k].0))
        }
}

/// Pair frequencies while building: the distinct pairs seen so far, by node
/// index, with their counts.
spec fn freq_wf(
    freq: Seq<(usize, usize, u64)>,
    actions: Seq<ActionModel>,
    p: Seq<(ActionModel, ActionModel)>,
) -> bool {
    let pd = distinct_in_order(p);
    &&& freq.len() == pd.len()
    &&& forall|k: int|
        0 <= k < freq.len() ==> {
            &&& (#[trigger] freq[k]).0 < actions.len()
            &&& freq[k].1 < actions.len()
            &&& actions[freq[k].0 as int] == pd[k].0
            &&& actions[freq[k].1 as int] == pd[k].1
            &&& freq[k].2 == count_of(p, pd[k])
        }
}

/// Node visits while building: each node's count of occurrences so far.
spec fn visits_wf(visits: Seq<u64>, actions: Seq<ActionModel>, f: Seq<ActionModel>) -> bool {
    &&& actions == distinct_in_order(f)
    &&& visits.len() == actions.len()
    &&& forall|i: int| 0 <= i < actions.len() ==> #[trigger] visits[i] == count_of(f, actions[i])
}

proof fn lemma_index_of_distinct(actions: Seq<ActionModel>, i: int, j: int)
    requires
        no_duplicates(actions),
        0 <= i < actions.len(),
        0 <= j < actions.len(),
        actions[i] == actions[j],
    ensures
        i == j,
{
    if i < j {
        assert(actions[i] != actions[j]);
    }
    if j < i {
        assert(actions[j] != actions[i]);
    }
}

/// Counts one more occurrence of the pair `(from, to)` of node indices.
#[verifier::loop_isolation(false)]
fn bump_pair(
    freq: &mut Vec<(usize, usize, u64)>,
    from: usize,
    to: usize,
    Ghost(actions): Ghost<Seq<ActionModel>>,
    Ghost(p): Ghost<Seq<(ActionModel, ActionModel)>>,
    Ghost(limit): Ghost<nat>,
)
    requires
        freq_wf(old(freq)@, actions, p),
        no_duplicates(actions),
        from < actions.len(),
        to < actions.len(),
        p.len() + 1 <= limit,
        limit <= u64::MAX,
        distinct_in_order(p).contains((actions[from as int], actions[to as int])) || old(
            freq,
        )@.len() < usize::MAX,
    ensures
        freq_wf(final(freq)@, actions, p.push((actions[from as int], actions[to as int]))),
{
    let ghost x = (actions[from as int], actions[to as int]);
    let ghost pd = distinct_in_order(p);
    proof {
        lemma_distinct_push(p, x);
        lemma_count_contains(p, x);
        lemma_distinct_props(p);
        assert forall|y: (ActionModel, ActionModel)|
            count_of(p.push(x), y) == count_of(p, y) + if x == y {
                1nat
            } else {
                0nat
            } by {
            lemma_count_push(p, x, y);
        }
    }
    let mut k: usize = 0;
    while k < freq.len()
        invariant
            freq_wf(freq@, actions, p),
            freq@ == old(freq)@,
            pd == distinct_in_order(p),
            x == (actions[from as int], actions[to as int]),
            no_duplicates(actions),
            from < actions.len(),
            to < actions.len(),
            k <= freq@.len(),
            forall|j: int| 0 <= j < k ==> pd[j] != x,
        decreases freq@.len() - k,
    {
        if freq[k].0 == from && freq[k].1 == to {
            let c = freq[k].2;
            proof {
                assert(pd[k as int] == x);
                assert(count_of(p, x) <= p.len());
            }
            freq.set(k, (from, to, c + 1));
            proof {
                assert(pd.contains(x)) by {
                    assert(pd[k as int] == x);
                }
                assert(distinct_in_order(p.push(x)) == pd);
            }
            return;
        }
        proof {
            if pd[k as int] == x {
                lemma_index_of_distinct(actions, freq@[k as int].0 as int, from as int);
                lemma_index_of_distinct(actions, freq@[k as int].1 as int, to as int);
            }
        }
        k += 1;
    }
    proof {
        assert(!pd.contains(x)) by {
            if pd.contains(x) {
                let j = choose|j: int| 0 <= j < pd.len() && pd[j] == x;
                assert(pd[j] != x);
            }
        }
        assert(count_of(p, x) == 0);
    }
    freq.push((from, to, 1));
}

/// The count recorded for the pair `(from, to)` of node indices (0 when it
/// was never seen).
fn pair_count(freq: &Vec<(usize, usize, u64)>, from: usize, to: usize, Ghost(actions): Ghost<Seq<ActionModel>>, Ghost(p): Ghost<Seq<(ActionModel, ActionModel)>>) -> (r: u64)
    requires
        freq_wf(freq@, actions, p),
        no_duplicates(actions),
        from < actions.len(),
        to < actions.len(),
    ensures
        r == count_of(p, (actions[from as int], actions[to as int])),
{
    let ghost x = (actions[from as int], actions[to as int]);
    let ghost pd = distinct_in_order(p);
    let mut k: usize = 0;
    while k < freq.len()
        invariant
            freq_wf(freq@, actions, p),
            pd == distinct_in_order(p),
            x == (actions[from as int], actions[to as int]),
            no_duplicates(actions),
            from < actions.len(),
            to < actions.len(),
            k <= freq@.len(),
            forall|j: int| 0 <= j < k ==> pd[j] != x,
        decreases freq@.len() - k,
    {
        if freq[k].0 == from && freq[k].1 == to {
            return freq[k].2;
        }
        proof {
            if pd[k as int] == x {
                lemma_index_of_distinct(actions, freq@[k as int].0 as int, from as int);
                lemma_index_of_distinct(actions, freq@[k as int].1 as int, to as int);
            }
        }
        k += 1;
    }
    proof {
        lemma_distinct_props(p);
        lemma_count_contains(p, x);
        if p.contains(x) {
            assert(pd.contains(x));
            let j = choose|j: int| 0 <= j < pd.len() && pd[j] == x;
            assert(pd[j] != x);
        }
    }
    0
}

proof fn lemma_freq_extend(
    freq: Seq<(usize, usize, u64)>,
    a1: Seq<ActionModel>,
    a2: Seq<ActionModel>,
    p: Seq<(ActionModel, ActionModel)>,
)
    requires
        freq_wf(freq, a1, p),
        a1.len() <= a2.len(),
        a2.subrange(0, a1.len() as int) == a1,
    ensures
        freq_wf(freq, a2, p),
{
    assert forall|q: int| 0 <= q < freq.len() implies a2[(#[trigger] freq[q]).0 as int] == a1[freq[q].0 as int]
        && a2[freq[q].1 as int] == a1[freq[q].1 as int] by {
        assert(a2.subrange(0, a1.len() as int)[freq[q].0 as int] == a2[freq[q].0 as int]);
        assert(a2.subrange(0, a1.len() as int)[freq[q].1 as int] == a2[freq[q].1 as int]);
    }
}

/// Counts the visits of one scenario's actions, adding the nodes of
/// actions not seen before.
#[verifier::loop_isolation(false)]
fn visit_actions(
    graph: &mut DiGraph<u64, (u64, u64)>,
    actions: &mut Vec<CanonicalAction>,
    acts: &Vec<CanonicalAction>,
    Ghost(f0): Ghost<Seq<ActionModel>>,
    Ghost(rest): Ghost<Seq<ActionModel>>,
)
    requires
        visits_wf(graph_nodes(*old(graph)), actions_model(old(actions)@), f0),
        (f0 + actions_model(acts@) + rest).len() <= u64::MAX,
        distinct_in_order(f0 + actions_model(acts@) + rest).len() < u32::MAX,
    ensures
        visits_wf(graph_nodes(*final(graph)), actions_model(final(actions)@), f0 + actions_model(acts@)),
        graph_edges(*final(graph)) == graph_edges(*old(graph)),
        actions_model(old(actions)@).len() <= actions_model(final(actions)@).len(),
        actions_model(final(actions)@).subrange(0, actions_model(old(actions)@).len() as int)
            == actions_model(old(actions)@),
{
    let ghost sk = actions_model(acts@);
    let ghost a0 = actions_model(actions@);
    let ghost fall = f0 + sk + rest;
    assert(sk.subrange(0, 0) =~= Seq::<ActionModel>::empty());
    assert(f0 + sk.subrange(0, 0) =~= f0);
    assert(actions_model(actions@).subrange(0, a0.len() as int) =~= a0);
    let mut j: usize = 0;
    while j < acts.len()
        invariant
            j <= acts@.len(),
            visits_wf(graph_nodes(*graph), actions_model(actions@), f0 + sk.subrange(0, j as int)),
            graph_edges(*graph) == graph_edges(*old(graph)),
            a0.len() <= actions_model(actions@).len(),
            actions_model(actions@).subrange(0, a0.len() as int) == a0,
        decreases acts@.len() - j,
    {
        let ghost fj = f0 + sk.subrange(0, j as int);
        let ghost x = sk[j as int];
        let ghost before = actions_model(actions@);
        proof {
            assert(fj.push(x) =~= f0 + sk.subrange(0, j + 1));
            assert(fall =~= fj.push(x) + (sk.subrange(j + 1, sk.len() as int) + rest));
            lemma_distinct_prefix(fj.push(x), sk.subrange(j + 1, sk.len() as int) + rest);
            lemma_distinct_push(fj, x);
            lemma_distinct_props(fj);
            lemma_distinct_props(fj.push(x));
            lemma_count_contains(fj.push(x), x);
            assert forall|y: ActionModel|
                count_of(fj.push(x), y) == count_of(fj, y) + if x == y {
                    1nat
                } else {
                    0nat
                } by {
                lemma_count_push(fj, x, y);
            }
        }
        let idx = get_or_insert(graph, actions, &acts[j]);
        let w = graph_node_weight(graph, idx);
        proof {
            assert(w == count_of(fj, x)) by {
                if !distinct_in_order(fj).contains(x) {
                    lemma_count_contains(fj, x);
                }
            }
        }
        graph_set_node_weight(graph, idx, w + 1);
        proof {
            let acts_m = actions_model(actions@);
            assert(acts_m == distinct_in_order(fj.push(x)));
            assert forall|i: int| 0 <= i < acts_m.len() implies #[trigger] graph_nodes(*graph)[i]
                == count_of(fj.push(x), acts_m[i]) by {
                if i != idx {
                    if i < distinct_in_order(fj).len() {
                        assert(acts_m[i] == distinct_in_order(fj)[i]);
                    }
                    assert(acts_m[i] != acts_m[idx as int]);
                }
            }
            assert(acts_m.subrange(0, a0.len() as int) =~= before.subrange(0, a0.len() as int));
        }
        j += 1;
    }
    assert(sk.subrange(0, acts@.len() as int) =~= sk);
}

/// Counts the consecutive pairs of one scenario's actions, all of which
/// already have nodes.
#[verifier::loop_isolation(false)]
fn count_pairs(
    graph: &mut DiGraph<u64, (u64, u64)>,
    actions: &mut Vec<CanonicalAction>,
    freq: &mut Vec<(usize, usize, u64)>,
    acts: &Vec<CanonicalAction>,
    Ghost(f1): Ghost<Seq<ActionModel>>,
    Ghost(p0): Ghost<Seq<(ActionModel, ActionModel)>>,
    Ghost(rest): Ghost<Seq<(ActionModel, ActionModel)>>,
    Ghost(limit): Ghost<nat>,
)
    requires
        visits_wf(graph_nodes(*old(graph)), actions_model(old(actions)@), f1),
        forall|j: int| 0 <= j < acts@.len() ==> f1.contains(#[trigger] acts@[j].model()),
        freq_wf(old(freq)@, actions_model(old(actions)@), p0),
        (p0 + pairs_of(actions_model(acts@)) + rest).len() <= limit,
        limit <= u64::MAX,
        distinct_in_order(p0 + pairs_of(actions_model(acts@)) + rest).len() < u32::MAX,
    ensures
        visits_wf(graph_nodes(*final(graph)), actions_model(final(actions)@), f1),
        actions_model(final(actions)@) == actions_model(old(actions)@),
        graph_nodes(*final(graph)) == graph_nodes(*old(graph)),
        graph_edges(*final(graph)) == graph_edges(*old(graph)),
        freq_wf(final(freq)@, actions_model(final(actions)@), p0 + pairs_of(actions_model(acts@))),
{
    let ghost sk = actions_model(acts@);
    let ghost pall = p0 + pairs_of(sk) + rest;
    proof {
        lemma_distinct_props(f1);
        assert(pairs_of(sk).subrange(0, 0) =~= Seq::<(ActionModel, ActionModel)>::empty());
        assert(p0 + pairs_of(sk).subrange(0, 0) =~= p0);
    }
    let mut j: usize = 1;
    while j < acts.len()
        invariant
            1 <= j,
            j <= acts@.len() || (acts@.len() == 0 && j == 1),
            visits_wf(graph_nodes(*graph), actions_model(actions@), f1),
            actions_model(actions@) == actions_model(old(actions)@),
            graph_nodes(*graph) == graph_nodes(*old(graph)),
            graph_edges(*graph) == graph_edges(*old(graph)),
            freq_wf(freq@, actions_model(actions@), p0 + pairs_of(sk).subrange(0, j - 1)),
        decreases acts@.len() - j,
    {
        let ghost pj = p0 + pairs_of(sk).subrange(0, j - 1);
        proof {
            assert(f1.contains(acts@[j - 1].model()));
            assert(f1.contains(acts@[j as int].model()));
        }
        let from = get_or_insert(graph, actions, &acts[j - 1]);
        let to = get_or_insert(graph, actions, &acts[j]);
        let ghost x = (sk[j - 1], sk[j as int]);
        proof {
            lemma_pairs_step(sk, j - 1);
            assert(pj.push(x) =~= p0 + pairs_of(sk).subrange(0, j as int));
            assert(pairs_of(sk).len() == sk.len() - 1);
            assert(pall =~= pj.push(x) + (pairs_of(sk).subrange(j as int, pairs_of(sk).len() as int)
                + rest));
            lemma_distinct_prefix(
                pj.push(x),
                pairs_of(sk).subrange(j as int, pairs_of(sk).len() as int) + rest,
            );
            lemma_distinct_push(pj, x);
        }
        bump_pair(freq, from, to, Ghost(actions_model(actions@)), Ghost(pj), Ghost(limit));
        j += 1;
    }
    proof {
        assert(sk.len() == acts@.len());
        if acts@.len() > 0 {
            assert(j == acts@.len());
            assert(pairs_of(sk).len() == j - 1);
            assert(pairs_of(sk).subrange(0, j - 1) =~= pairs_of(sk));
        } else {
            assert(pairs_of(sk) =~= Seq::<(ActionModel, ActionModel)>::empty());
            assert(pairs_of(sk).subrange(0, j - 1) =~= pairs_of(sk));
        }
        assert(p0 + pairs_of(sk).subrange(0, j - 1) =~= p0 + pairs_of(sk));
    }
}

/// Adds one edge per recorded pair, with its forward and backward counts.
#[verifier::loop_isolation(false)]
fn add_edges(
    graph: &mut DiGraph<u64, (u64, u64)>,
    freq: &Vec<(usize, usize, u64)>,
    Ghost(am): Ghost<Seq<ActionModel>>,
    Ghost(pall): Ghost<Seq<(ActionModel, ActionModel)>>,
)
    requires
        graph_nodes(*old(graph)).len() == am.len(),
        no_duplicates(am),
        freq_wf(freq@, am, pall),
        distinct_in_order(pall).len() < u32::MAX,
        graph_edges(*old(graph)) == Seq::<(usize, usize, (u64, u64))>::empty(),
    ensures
        graph_nodes(*final(graph)) == graph_nodes(*old(graph)),
        graph_edges(*final(graph)).len() == freq@.len(),
        forall|q: int|
            0 <= q < freq@.len() ==> #[trigger] graph_edges(*final(graph))[q] == (
                freq@[q].0,
                freq@[q].1,
                (freq@[q].2, count_of(pall, (distinct_in_order(pall)[q].1, distinct_in_order(pall)[q].0)) as u64),
            ),
{
    let mut e: usize = 0;
    while e < freq.len()
        invariant
            e <= freq@.len(),
            graph_nodes(*graph) == graph_nodes(*old(graph)),
            graph_edges(*graph).len() == e,
            forall|q: int|
                0 <= q < e ==> #[trigger] graph_edges(*graph)[q] == (
                    freq@[q].0,
                    freq@[q].1,
                    (freq@[q].2, count_of(pall, (distinct_in_order(pall)[q].1, distinct_in_order(pall)[q].0)) as u64),
                ),
        decreases freq@.len() - e,
    {
        let (a, b, c) = freq[e];
        let back = pair_count(freq, b, a, Ghost(am), Ghost(pall));
        graph_add_edge(graph, a, b, (c, back));
        e += 1;
    }
}

/// Build an action graph from a corpus of scenarios: one node per
/// distinct action (in order of first appearance) counting its
/// occurrences, one edge per distinct consecutive pair (in order of first
/// appearance) with its forward and backward frequencies.
///
/// The counts must fit in `u64` and the graph's `u32` indices must have
/// room for every node and edge.
pub fn from_scenarios(scenarios: &[Scenario]) -> (r: ActionGraph)
    requires
        flatten(corpus_model(scenarios@)).len() <= u64::MAX,
        distinct_in_order(flatten(corpus_model(scenarios@))).len() < u32::MAX,
        distinct_in_order(all_pairs(corpus_model(scenarios@))).len() < u32::MAX,
    ensures
        built_from(r.node_actions(), r.visits(), r.edges(), corpus_model(scenarios@)),
        r.scored() == Seq::new(r.edges().len(), |k: int| true),
{
    let ghost m = corpus_model(scenarios@);
    let ghost fall = flatten(m);
    let ghost pall = all_pairs(m);
    proof {
        lemma_pairs_len(m);
    }
    let mut graph = graph_new();
    let mut actions: Vec<CanonicalAction> = Vec::new();
    let mut freq: Vec<(usize, usize, u64)> = Vec::new();
    assert(actions_model(actions@) =~= Seq::<ActionModel>::empty());
    assert(m.subrange(0, 0) =~= Seq::<Seq<ActionModel>>::empty());
    let mut k: usize = 0;
    while k < scenarios.len()
        invariant
            m == corpus_model(scenarios@),
            fall == flatten(m),
            pall == all_pairs(m),
            pall.len() <= fall.len(),
            fall.len() <= u64::MAX,
            distinct_in_order(fall).len() < u32::MAX,
            distinct_in_order(pall).len() < u32::MAX,
            k <= scenarios@.len(),
            visits_wf(graph_nodes(graph), actions_model(actions@), flatten(m.subrange(0, k as int))),
            freq_wf(freq@, actions_model(actions@), all_pairs(m.subrange(0, k as int))),
            graph_edges(graph) == Seq::<(usize, usize, (u64, u64))>::empty(),
        decreases scenarios@.len() - k,
    {
        let acts = &scenarios[k].actions;
        let ghost sk = m[k as int];
        let ghost f0 = flatten(m.subrange(0, k as int));
        let ghost p0 = all_pairs(m.subrange(0, k as int));
        let ghost a0 = actions_model(actions@);
        proof {
            assert(sk == actions_model(acts@));
            lemma_flatten_split(m, k as int, sk.len() as int);
            assert(sk.subrange(0, sk.len() as int) =~= sk);
            assert(sk.subrange(sk.len() as int, sk.len() as int) + flatten(m.subrange(k + 1, m.len() as int))
                =~= flatten(m.subrange(k + 1, m.len() as int)));
            lemma_prefix_step(m, k as int);
        }
        visit_actions(
            &mut graph,
            &mut actions,
            acts,
            Ghost(f0),
            Ghost(flatten(m.subrange(k + 1, m.len() as int))),
        );
        proof {
            lemma_freq_extend(freq@, a0, actions_model(actions@), p0);
            let f1 = f0 + sk;
            assert forall|j: int| 0 <= j < acts@.len() implies f1.contains(#[trigger] acts@[j].model()) by {
                assert(f1[f0.len() + j] == sk[j]);
            }
        }
        count_pairs(
            &mut graph,
            &mut actions,
            &mut freq,
            acts,
            Ghost(f0 + sk),
            Ghost(p0),
            Ghost(all_pairs(m.subrange(k + 1, m.len() as int))),
            Ghost(fall.len()),
        );
        k += 1;
    }
    assert(m.subrange(0, m.len() as int) =~= m);
    let ghost am = actions_model(actions@);
    proof {
        lemma_distinct_props(fall);
    }
    add_edges(&mut graph, &freq, Ghost(am), Ghost(pall));
    let e = graph_edge_count(&graph);
    let mut scored: Vec<bool> = Vec::new();
    let mut q: usize = 0;
    while q < e
        invariant
            q <= e,
            scored@ == Seq::new(q as nat, |k: int| true),
        decreases e - q,
    {
        scored.push(true);
        q += 1;
        assert(scored@ =~= Seq::new(q as nat, |k: int| true));
    }
    let r = ActionGraph { graph, actions, scored };
    assert forall|q: int| 0 <= q < r.edges().len() implies #[trigger] r.edges()[q].2.1 == count_of(
        pall,
        (distinct_in_order(pall)[q].1, distinct_in_order(pall)[q].0),
    ) by {
        lemma_count_contains(pall, (distinct_in_order(pall)[q].1, distinct_in_order(pall)[q].0));
    }
    r
}

} // verus!
