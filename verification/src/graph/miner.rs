//! Heuristics miner: the most frequent path through an action graph, and
//! the edge filter of the dependency graph.

use vstd::prelude::*;

use crate::graph::action_graph::{parts_wf, ActionGraph};
use crate::graph::digraph::{enters, outgoing_desc};
use crate::scenario::CanonicalAction;

verus! {

/// No edge enters node `i`.
pub open spec fn is_root(edges: Seq<(usize, usize, (u64, u64))>, i: int) -> bool {
    !enters(edges, i as usize)
}

/// Node `i` is a candidate of highest visit count, the last such among
/// equals.
pub open spec fn is_last_max(visits: Seq<u64>, roots_only: bool, edges: Seq<(usize, usize, (u64, u64))>, i: int) -> bool {
    &&& 0 <= i < visits.len()
    &&& (roots_only ==> is_root(edges, i))
    &&& forall|j: int|
        0 <= j < visits.len() && (roots_only ==> is_root(edges, j)) ==> #[trigger] visits[j] <= visits[i] && (
        visits[j] == visits[i] ==> j <= i)
}

/// Where the path starts: the most visited node that no edge enters (the
/// last among equals), or the most visited node when every node is
/// entered.
pub open spec fn start_node(visits: Seq<u64>, edges: Seq<(usize, usize, (u64, u64))>) -> int {
    if exists|i: int| 0 <= i < visits.len() && #[trigger] is_root(edges, i) {
        choose|i: int| is_last_max(visits, true, edges, i)
    } else {
        choose|i: int| is_last_max(visits, false, edges, i)
    }
}

/// Edge `k` leaves `cur`, is not yet taken, and has the highest frequency
/// among such edges, the earliest added among equals.
pub open spec fn is_best_edge(edges: Seq<(usize, usize, (u64, u64))>, taken: Set<int>, cur: usize, k: int) -> bool {
    &&& 0 <= k < edges.len()
    &&& edges[k].0 == cur
    &&& !taken.contains(k)
    &&& forall|c: int|
        0 <= c < edges.len() && (#[trigger] edges[c]).0 == cur && !taken.contains(c) ==> edges[c].2.0
            <= edges[k].2.0 && (edges[c].2.0 == edges[k].2.0 ==> k <= c)
}

/// The next edge the path takes from `cur`, if any is left.
pub open spec fn next_edge(edges: Seq<(usize, usize, (u64, u64))>, taken: Set<int>, cur: usize) -> Option<int> {
    if exists|k: int| 0 <= k < edges.len() && (#[trigger] edges[k]).0 == cur && !taken.contains(k) {
        Some(choose|k: int| is_best_edge(edges, taken, cur, k))
    } else {
        None
    }
}

/// The nodes the path reaches from `cur` in at most `steps` steps.
pub open spec fn walk(edges: Seq<(usize, usize, (u64, u64))>, taken: Set<int>, cur: usize, steps: nat) -> Seq<usize>
    decreases steps,
{
    if steps == 0 {
        Seq::empty()
    } else {
        match next_edge(edges, taken, cur) {
            None => Seq::empty(),
            Some(k) => seq![edges[k].1] + walk(edges, taken.insert(k), edges[k].1, (steps - 1) as nat),
        }
    }
}

/// The node indices of the most frequent path: from the start node, follow
/// the best untaken edge until none is left, for at most one step more than
/// there are nodes.
pub open spec fn frequent_path(visits: Seq<u64>, edges: Seq<(usize, usize, (u64, u64))>) -> Seq<usize> {
    if visits.len() == 0 {
        Seq::empty()
    } else {
        let s = start_node(visits, edges) as usize;
        seq![s] + walk(edges, Set::empty(), s, visits.len() + 1)
    }
}

proof fn lemma_last_max_unique(visits: Seq<u64>, roots_only: bool, edges: Seq<(usize, usize, (u64, u64))>, i: int, j: int)
    requires
        is_last_max(visits, roots_only, edges, i),
        is_last_max(visits, roots_only, edges, j),
    ensures
        i == j,
{
    assert(visits[j] <= visits[i]);
    assert(visits[i] <= visits[j]);
}

proof fn lemma_best_edge_unique(edges: Seq<(usize, usize, (u64, u64))>, taken: Set<int>, cur: usize, k: int, q: int)
    requires
        is_best_edge(edges, taken, cur, k),
        is_best_edge(edges, taken, cur, q),
    ensures
        k == q,
{
}

/// Heuristics process-discovery miner over an [`ActionGraph`].
#[derive(Clone, Copy, Debug)]
pub struct HeuristicsMiner;

/// The start node of the path.
fn find_start(graph: &ActionGraph) -> (r: usize)
    requires
        graph.visits().len() > 0,
    ensures
        r == start_node(graph.visits(), graph.edges()),
        r < graph.visits().len(),
{
    let n = graph.node_count();
    let ghost visits = graph.visits();
    let ghost edges = graph.edges();
    let mut best_root: Option<usize> = None;
    let mut best_any: usize = 0;
    let mut best_any_w: u64 = graph.node(0).visit_count;
    let mut best_root_w: u64 = 0;
    let mut i: usize = 0;
    while i < n
        invariant
            n == visits.len(),
            n == graph.node_actions().len(),
            visits == graph.visits(),
            edges == graph.edges(),
            0 < n,
            i <= n,
            best_any < n,
            best_any_w == visits[best_any as int],
            forall|j: int| 0 <= j < i ==> visits[j] <= visits[best_any as int] && (visits[j] == visits[best_any as int] ==> j <= best_any),
            i == 0 ==> best_any == 0,
            i > 0 ==> best_any < i,
            best_root matches Some(b) ==> b < i && is_root(edges, b as int) && best_root_w == visits[b as int]
                && forall|j: int| 0 <= j < i && is_root(edges, j) ==> #[trigger] visits[j] <= visits[b as int] && (
                visits[j] == visits[b as int] ==> j <= b),
            best_root is None ==> forall|j: int| 0 <= j < i ==> !#[trigger] is_root(edges, j),
        decreases n - i,
    {
        let w = graph.node(i).visit_count;
        if w >= best_any_w {
            best_any = i;
            best_any_w = w;
        }
        if !graph.has_incoming(i) {
            match best_root {
                Some(_) => {
                    if w >= best_root_w {
                        best_root = Some(i);
                        best_root_w = w;
                    }
                },
                None => {
                    best_root = Some(i);
                    best_root_w = w;
                },
            }
        }
        i += 1;
    }
    match best_root {
        Some(b) => {
            proof {
                assert(is_last_max(visits, true, edges, b as int));
                let c = choose|c: int| is_last_max(visits, true, edges, c);
                lemma_last_max_unique(visits, true, edges, b as int, c);
            }
            b
        },
        None => {
            proof {
                assert(is_last_max(visits, false, edges, best_any as int));
                let c = choose|c: int| is_last_max(visits, false, edges, c);
                lemma_last_max_unique(visits, false, edges, best_any as int, c);
            }
            best_any
        },
    }
}

/// The untaken edge of highest frequency leaving `cur` (the earliest added
/// among equals), if there is one.
fn best_edge(graph: &ActionGraph, taken: &Vec<bool>, cur: usize, Ghost(t): Ghost<Set<int>>) -> (r: Option<usize>)
    requires
        cur < graph.visits().len(),
        graph.edges().len() < u32::MAX,
        taken@.len() == graph.edges().len(),
        forall|k: int| 0 <= k < taken@.len() ==> (taken@[k] <==> t.contains(k)),
    ensures
        r matches Some(k) ==> next_edge(graph.edges(), t, cur) == Some(k as int) && k < graph.edges().len()
            && graph.edges()[k as int].0 == cur,
        r is None ==> next_edge(graph.edges(), t, cur) is None,
{
    let out = graph.outgoing(cur);
    let ghost edges = graph.edges();
    let ghost m = edges.len();
    proof {
        lemma_outgoing_desc(edges, cur, m);
    }
    let mut best: Option<usize> = None;
    let mut best_w: u64 = 0;
    let mut i: usize = 0;
    while i < out.len()
        invariant
            edges == graph.edges(),
            m == edges.len(),
            out@ == outgoing_desc(edges, cur, m),
            forall|a: int| 0 <= a < out@.len() ==> out@[a] < m && edges[out@[a] as int].0 == cur,
            forall|a: int, b: int| 0 <= a < b < out@.len() ==> out@[a] > out@[b],
            forall|k: int| 0 <= k < m && edges[k].0 == cur ==> exists|a: int| 0 <= a < out@.len() && out@[a] == k,
            taken@.len() == m,
            forall|k: int| 0 <= k < taken@.len() ==> (taken@[k] <==> t.contains(k)),
            i <= out@.len(),
            best matches Some(b) ==> {
                &&& b < m
                &&& edges[b as int].0 == cur
                &&& !t.contains(b as int)
                &&& best_w == edges[b as int].2.0
                &&& forall|a: int| 0 <= a < i && !t.contains(out@[a] as int) ==> edges[out@[a] as int].2.0 <= best_w
                    && (edges[out@[a] as int].2.0 == best_w ==> b <= out@[a])
            },
            best is None ==> forall|a: int| 0 <= a < i ==> t.contains(out@[a] as int),
        decreases out@.len() - i,
    {
        let k = out[i];
        if !taken[k] {
            let (_, _, tr) = graph.transition(k);
            match best {
                Some(_) => {
                    if tr.frequency >= best_w {
                        best = Some(k);
                        best_w = tr.frequency;
                    }
                },
                None => {
                    best = Some(k);
                    best_w = tr.frequency;
                },
            }
        }
        i += 1;
    }
    match best {
        Some(b) => {
            proof {
                assert forall|c: int| 0 <= c < m && edges[c].0 == cur && !t.contains(c) implies edges[c].2.0
                    <= edges[b as int].2.0 && (edges[c].2.0 == edges[b as int].2.0 ==> b <= c) by {
                    let a = choose|a: int| 0 <= a < out@.len() && out@[a] == c;
                }
                assert(is_best_edge(edges, t, cur, b as int));
                let c = choose|c: int| is_best_edge(edges, t, cur, c);
                lemma_best_edge_unique(edges, t, cur, b as int, c);
            }
            Some(b)
        },
        None => {
            proof {
                assert forall|c: int| 0 <= c < m && edges[c].0 == cur implies t.contains(c) by {
                    let a = choose|a: int| 0 <= a < out@.len() && out@[a] == c;
                }
            }
            None
        },
    }
}

proof fn lemma_outgoing_desc(edges: Seq<(usize, usize, (u64, u64))>, cur: usize, n: nat)
    requires
        n <= edges.len(),
        edges.len() <= usize::MAX,
    ensures
        forall|a: int| 0 <= a < outgoing_desc(edges, cur, n).len() ==> (#[trigger] outgoing_desc(edges, cur, n)[a]) < n
            && edges[outgoing_desc(edges, cur, n)[a] as int].0 == cur,
        forall|a: int, b: int|
            0 <= a < b < outgoing_desc(edges, cur, n).len() ==> outgoing_desc(edges, cur, n)[a] > outgoing_desc(
                edges,
                cur,
                n,
            )[b],
        forall|k: int|
            0 <= k < n && edges[k].0 == cur ==> exists|a: int|
                0 <= a < outgoing_desc(edges, cur, n).len() && outgoing_desc(edges, cur, n)[a] == k,
    decreases n,
{
    if n > 0 {
        let rest = outgoing_desc(edges, cur, (n - 1) as nat);
        lemma_outgoing_desc(edges, cur, (n - 1) as nat);
        let d = outgoing_desc(edges, cur, n);
        if edges[n - 1].0 == cur {
            assert(d == seq![(n - 1) as usize] + rest);
            assert(d[0] == (n - 1) as usize);
            assert forall|a: int| 0 <= a < d.len() implies (#[trigger] d[a]) < n && edges[d[a] as int].0 == cur by {
                if a > 0 {
                    assert(d[a] == rest[a - 1]);
                    assert(rest[a - 1] < n - 1);
                }
            }
            assert forall|a: int, b: int| 0 <= a < b < d.len() implies d[a] > d[b] by {
                assert(d[b] == rest[b - 1]);
                assert(rest[b - 1] < n - 1);
                if a > 0 {
                    assert(d[a] == rest[a - 1]);
                }
            }
            assert forall|k: int| 0 <= k < n && edges[k].0 == cur implies exists|a: int|
                0 <= a < d.len() && d[a] == k by {
                if k == n - 1 {
                    assert(d[0] == k);
                } else {
                    let a = choose|a: int| 0 <= a < rest.len() && rest[a] == k;
                    assert(d[a + 1] == k);
                }
            }
        }
    }
}

impl HeuristicsMiner {
    /// The most frequent path through the graph (see [`frequent_path`]), as
    /// copies of the actions along it.
    pub fn most_frequent_path(graph: &ActionGraph) -> (r: Vec<CanonicalAction>)
        ensures
            r@.len() == frequent_path(graph.visits(), graph.edges()).len(),
            forall|i: int|
                0 <= i < r@.len() ==> (#[trigger] r@[i]).model() == graph.node_actions()[frequent_path(
                    graph.visits(),
                    graph.edges(),
                )[i] as int],
    {
        let n = graph.node_count();
        if n == 0 {
            return Vec::new();
        }
        let ghost edges = graph.edges();
        let ghost visits = graph.visits();
        let start = find_start(graph);
        let m = graph.edge_count();
        let mut taken: Vec<bool> = Vec::new();
        let mut q: usize = 0;
        while q < m
            invariant
                q <= m,
                taken@.len() == q,
                forall|k: int| 0 <= k < q ==> !taken@[k],
            decreases m - q,
        {
            taken.push(false);
            q += 1;
        }
        let ghost mut t: Set<int> = Set::empty();
        let mut path_idx: Vec<usize> = Vec::new();
        path_idx.push(start);
        let mut cur = start;
        let ghost full = frequent_path(visits, edges);
        let mut steps: usize = 0;
        proof {
            assert(full == seq![start] + walk(edges, Set::empty(), start, (n + 1) as nat));
        }
        loop
            invariant
                edges == graph.edges(),
                visits == graph.visits(),
                n == visits.len(),
                m == edges.len(),
                cur < n,
                parts_wf(graph.node_actions(), graph.visits(), graph.edges()),
                taken@.len() == m,
                forall|k: int| 0 <= k < taken@.len() ==> (taken@[k] <==> t.contains(k)),
                steps <= n + 1,
                path_idx@.len() == steps + 1,
                forall|a: int| 0 <= a < path_idx@.len() ==> path_idx@[a] < n,
                full == path_idx@ + walk(edges, t, cur, (n + 1 - steps) as nat),
            ensures
                full == path_idx@,
                forall|a: int| 0 <= a < path_idx@.len() ==> path_idx@[a] < n,
            decreases n + 1 - steps,
        {
            if steps == n + 1 {
                proof {
                    assert(walk(edges, t, cur, 0) =~= Seq::<usize>::empty());
                    assert(full =~= path_idx@);
                }
                break;
            }
            match best_edge(graph, &taken, cur, Ghost(t)) {
                None => {
                    proof {
                        assert(walk(edges, t, cur, (n + 1 - steps) as nat) =~= Seq::<usize>::empty());
                        assert(full =~= path_idx@);
                    }
                    break;
                },
                Some(k) => {
                    let (_, to, _) = graph.transition(k);
                    let ghost before = path_idx@;
                    let ghost left = (n + 1 - steps) as nat;
                    taken.set(k, true);
                    proof {
                        let t_old = t;
                        assert(walk(edges, t_old, cur, left) == seq![to] + walk(
                            edges,
                            t_old.insert(k as int),
                            to,
                            (left - 1) as nat,
                        ));
                        t = t_old.insert(k as int);
                        assert(before + (seq![to] + walk(edges, t, to, (left - 1) as nat)) =~= before.push(
                            to,
                        ) + walk(edges, t, to, (left - 1) as nat));
                    }
                    path_idx.push(to);
                    cur = to;
                    steps += 1;
                },
            }
        }
        let mut out: Vec<CanonicalAction> = Vec::new();
        let mut i: usize = 0;
        while i < path_idx.len()
            invariant
                full == path_idx@,
                parts_wf(graph.node_actions(), graph.visits(), graph.edges()),
                forall|a: int| 0 <= a < path_idx@.len() ==> path_idx@[a] < n,
                n == graph.node_actions().len(),
                i <= path_idx@.len(),
                out@.len() == i,
                forall|a: int| 0 <= a < i ==> (#[trigger] out@[a]).model() == graph.node_actions()[full[a] as int],
            decreases path_idx@.len() - i,
        {
            out.push(graph.node(path_idx[i]).action);
            i += 1;
        }
        out
    }
}

} // verus!
